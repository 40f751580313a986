//! The data exchanged with the user interface, and the decisions behind the
//! interface commands.

use vstd::prelude::*;
use crate::text::{chars_of, find_char, first_index, slice_range, split_chars, split_on, string_of};
use crate::recognition::{fits_desktop, within_desktop};

verus! {

/// Whether a Java runtime answered, its version and the command used.
#[derive(Debug)]
pub struct JavaInfo {
    pub installed: bool,
    pub version: Option<String>,
    pub path: Option<String>,
}

/// Whether the solver jar was found, and where.
#[derive(Debug)]
pub struct SfinderJarInfo {
    pub found: bool,
    pub path: Option<String>,
    pub version: Option<String>,
}

/// The settings of one solver run.
#[derive(Debug, Clone)]
pub struct SfinderCommandConfig {
    pub command: String,
    pub tetfu: Vec<String>,
    pub jar_path: Option<String>,
    pub java_path: Option<String>,
    pub page: Option<u32>,
    pub clear_line: Option<u32>,
    pub patterns: Option<String>,
    pub hold: Option<String>,
    pub drop: Option<String>,
    pub kicks: Option<String>,
    pub format: Option<String>,
    pub split: Option<bool>,
    pub specified_only: Option<bool>,
    pub reserved: Option<bool>,
    pub output_base: Option<String>,
    pub field_path: Option<String>,
    pub patterns_path: Option<String>,
    pub threads: Option<u32>,
    pub max_layer: Option<u32>,
    pub key: Option<String>,
    pub mode: Option<String>,
    pub cover_logic: Option<String>,
}

/// One solution of a `path` run: its field code, how many patterns it
/// covers, and the pieces it uses.
#[derive(Debug)]
pub struct PathResultEntry {
    pub fumen: String,
    pub coverage: u32,
    pub used: String,
}

impl Clone for PathResultEntry {
    fn clone(&self) -> (res: Self)
        ensures
            res == *self,
    {
        PathResultEntry { fumen: self.fumen.clone(), coverage: self.coverage, used: self.used.clone() }
    }
}

/// One pattern of a `cover` run.
#[derive(Debug, Clone)]
pub struct CoverResultEntry {
    pub pattern: String,
    pub fumen: String,
    pub coverage: u32,
    pub used: String,
}

/// What a solver run produced.
#[derive(Debug, Clone)]
pub struct SfinderOutput {
    pub stdout: String,
    pub stderr: String,
    pub exit_code: i32,
    pub output_files: Vec<String>,
    pub command_line: String,
    pub path_results: Option<Vec<PathResultEntry>>,
    pub path_total_patterns: Option<u32>,
    pub strict_minimal: Option<Vec<PathResultEntry>>,
    pub cover_results: Option<Vec<CoverResultEntry>>,
    pub cover_total_patterns: Option<u32>,
}

/// The first line of a text, without its line ending (`\n` or `\r\n`); none
/// for an empty text.
pub open spec fn first_line(t: Seq<char>) -> Option<Seq<char>> {
    if t.len() == 0 {
        None
    } else {
        match first_index(t, '\n') {
            Some(i) => Some(
                if i > 0 && t[i - 1] == '\r' {
                    t.take(i - 1)
                } else {
                    t.take(i)
                },
            ),
            None => Some(t),
        }
    }
}

/// The version Java reports on the first line of its `-version` output, as
/// in `openjdk version "17.0.1" 2021-10-19`: the text after the first double
/// quote, up to the next one.
pub open spec fn reported_version(t: Seq<char>) -> Option<Seq<char>> {
    match first_line(t) {
        Some(l) => if split_on(l, '"').len() > 1 {
            Some(split_on(l, '"')[1])
        } else {
            None
        },
        None => None,
    }
}

/// The version Java reports (see [`reported_version`]).
pub fn java_version(output: &str) -> (v: Option<String>)
    ensures
        match v {
            Some(s) => reported_version(output@) == Some(s@),
            None => reported_version(output@) is None,
        },
{
    let chars = chars_of(output);
    if chars.len() == 0 {
        return None;
    }
    let n: usize = chars.len();
    let line = match find_char(chars.as_slice(), '\n') {
        Some(i) => if i > 0 && chars[i - 1] == '\r' {
            slice_range(chars.as_slice(), 0, i - 1)
        } else {
            slice_range(chars.as_slice(), 0, i)
        },
        None => slice_range(chars.as_slice(), 0, n),
    };
    assert(chars@.subrange(0, n as int) =~= chars@);
    proof {
        match first_index(chars@, '\n') {
            Some(i) => {
                assert(chars@.subrange(0, i) =~= chars@.take(i));
                if i > 0 {
                    assert(chars@.subrange(0, i - 1) =~= chars@.take(i - 1));
                }
            },
            None => {},
        }
    }
    let parts = split_chars(line.as_slice(), '"');
    if parts.len() > 1 {
        Some(string_of(parts[1].as_slice()))
    } else {
        None
    }
}

/// What checking for Java found, from the command that was run, whether it
/// succeeded, and what it printed on its error stream (where Java prints
/// its version): when it succeeded, installed with the reported version and
/// the command; otherwise not installed.
pub fn java_info(java_exe: &str, success: bool, version_text: &str) -> (info: JavaInfo)
    ensures
        info.installed == success,
        success ==> match info.version {
            Some(v) => reported_version(version_text@) == Some(v@),
            None => reported_version(version_text@) is None,
        },
        success ==> (info.path matches Some(p) && p@ == java_exe@),
        !success ==> info.version is None && info.path is None,
{
    if success {
        JavaInfo {
            installed: true,
            version: java_version(version_text),
            path: Some(String::from_str(java_exe)),
        }
    } else {
        JavaInfo { installed: false, version: None, path: None }
    }
}

/// What checking for the solver jar found: the path when the file exists.
pub fn jar_info(exists: bool, path: String) -> (info: SfinderJarInfo)
    ensures
        info.found == exists,
        exists ==> info.path == Some(path),
        !exists ==> info.path is None,
        info.version is None,
{
    if exists {
        SfinderJarInfo { found: true, path: Some(path), version: None }
    } else {
        SfinderJarInfo { found: false, path: None, version: None }
    }
}

/// The leftmost and topmost monitor edges and the rightmost and lowest far
/// edges of the first `n` monitors; for none, the extreme values that any
/// monitor replaces.
pub open spec fn desktop_extent(displays: Seq<(i32, i32, u32, u32)>, n: int) -> (int, int, int, int)
    decreases n,
{
    if n <= 0 {
        (i32::MAX as int, i32::MAX as int, i32::MIN as int, i32::MIN as int)
    } else {
        let (a, b, c, d) = desktop_extent(displays, n - 1);
        let m = displays[n - 1];
        (
            if m.0 < a { m.0 as int } else { a },
            if m.1 < b { m.1 as int } else { b },
            if m.0 + m.2 > c { m.0 + m.2 } else { c },
            if m.1 + m.3 > d { m.1 + m.3 } else { d },
        )
    }
}

/// The window that spans all monitors: its position and size; 1920 x 1080
/// at the extreme corner when there is no monitor.
pub open spec fn desktop_window(displays: Seq<(i32, i32, u32, u32)>) -> (int, int, int, int) {
    let (x0, y0, x1, y1) = desktop_extent(displays, displays.len() as int);
    if x0 <= x1 {
        (x0, y0, x1 - x0, y1 - y0)
    } else {
        (x0, y0, 1920, 1080)
    }
}

proof fn lemma_extent_bounds(displays: Seq<(i32, i32, u32, u32)>, n: int)
    requires
        0 <= n <= displays.len(),
        forall|k: int| 0 <= k < displays.len() ==> within_desktop(#[trigger] displays[k]),
    ensures
        i32::MIN <= desktop_extent(displays, n).0 <= i32::MAX,
        i32::MIN <= desktop_extent(displays, n).1 <= i32::MAX,
        i32::MIN <= desktop_extent(displays, n).2 <= i32::MAX,
        i32::MIN <= desktop_extent(displays, n).3 <= i32::MAX,
        n > 0 ==> desktop_extent(displays, n).0 <= desktop_extent(displays, n).2,
        n > 0 ==> desktop_extent(displays, n).1 <= desktop_extent(displays, n).3,
    decreases n,
{
    if n > 0 {
        lemma_extent_bounds(displays, n - 1);
        assert(within_desktop(displays[n - 1]));
    }
}

proof fn lemma_extent_spans(displays: Seq<(i32, i32, u32, u32)>, n: int)
    requires
        0 <= n <= displays.len(),
    ensures
        forall|k: int|
            0 <= k < n ==> desktop_extent(displays, n).0 <= (#[trigger] displays[k]).0
                && desktop_extent(displays, n).1 <= displays[k].1 && displays[k].0 + displays[k].2
                <= desktop_extent(displays, n).2 && displays[k].1 + displays[k].3 <= desktop_extent(
                displays,
                n,
            ).3,
        n > 0 ==> exists|k: int| 0 <= k < n && (#[trigger] displays[k]).0 == desktop_extent(displays, n).0,
        n > 0 ==> exists|k: int| 0 <= k < n && (#[trigger] displays[k]).1 == desktop_extent(displays, n).1,
        n > 0 ==> exists|k: int|
            0 <= k < n && (#[trigger] displays[k]).0 + displays[k].2 == desktop_extent(displays, n).2,
        n > 0 ==> exists|k: int|
            0 <= k < n && (#[trigger] displays[k]).1 + displays[k].3 == desktop_extent(displays, n).3,
    decreases n,
{
    if n > 0 {
        lemma_extent_spans(displays, n - 1);
        let m = displays[n - 1];
        assert(displays[n - 1] == m);
        if n == 1 {
            assert(desktop_extent(displays, 0) == (i32::MAX as int, i32::MAX as int, i32::MIN as int, i32::MIN as int));
        }
    }
}

/// The window spans every monitor, and no more: each monitor lies inside it,
/// and each of its four edges is the edge of some monitor.
pub proof fn lemma_desktop_window_spans(displays: Seq<(i32, i32, u32, u32)>)
    requires
        displays.len() > 0,
    ensures
        forall|k: int|
            0 <= k < displays.len() ==> desktop_window(displays).0 <= (#[trigger] displays[k]).0
                && desktop_window(displays).1 <= displays[k].1 && displays[k].0 + displays[k].2
                <= desktop_window(displays).0 + desktop_window(displays).2 && displays[k].1
                + displays[k].3 <= desktop_window(displays).1 + desktop_window(displays).3,
        exists|k: int| 0 <= k < displays.len() && (#[trigger] displays[k]).0 == desktop_window(displays).0,
        exists|k: int| 0 <= k < displays.len() && (#[trigger] displays[k]).1 == desktop_window(displays).1,
        exists|k: int|
            0 <= k < displays.len() && (#[trigger] displays[k]).0 + displays[k].2 == desktop_window(
                displays,
            ).0 + desktop_window(displays).2,
        exists|k: int|
            0 <= k < displays.len() && (#[trigger] displays[k]).1 + displays[k].3 == desktop_window(
                displays,
            ).1 + desktop_window(displays).3,
{
    let n = displays.len() as int;
    lemma_extent_spans(displays, n);
    let k = choose|k: int| 0 <= k < n && (#[trigger] displays[k]).0 == desktop_extent(displays, n).0;
    assert(desktop_extent(displays, n).0 <= displays[k].0 + displays[k].2 <= desktop_extent(displays, n).2);
}

/// Whether [`desktop_bounds`] can compute the window: every monitor's far
/// edges are `i32` coordinates, and so are the window's width and height.
pub fn desktop_fits(displays: &[(i32, i32, u32, u32)]) -> (b: bool)
    ensures
        b == ((forall|k: int| 0 <= k < displays@.len() ==> within_desktop(#[trigger] displays@[k]))
            && desktop_window(displays@).2 <= i32::MAX && desktop_window(displays@).3 <= i32::MAX),
{
    let mut min_x: i64 = i32::MAX as i64;
    let mut min_y: i64 = i32::MAX as i64;
    let mut max_x: i64 = i32::MIN as i64;
    let mut max_y: i64 = i32::MIN as i64;
    let mut k: usize = 0;
    while k < displays.len()
        invariant
            k <= displays@.len(),
            forall|j: int| 0 <= j < k ==> within_desktop(#[trigger] displays@[j]),
            (min_x as int, min_y as int, max_x as int, max_y as int) == desktop_extent(
                displays@,
                k as int,
            ),
        decreases displays@.len() - k,
    {
        let m = displays[k];
        if !fits_desktop(m) {
            return false;
        }
        let (x, y, w, h) = m;
        if (x as i64) < min_x {
            min_x = x as i64;
        }
        if (y as i64) < min_y {
            min_y = y as i64;
        }
        if x as i64 + w as i64 > max_x {
            max_x = x as i64 + w as i64;
        }
        if y as i64 + h as i64 > max_y {
            max_y = y as i64 + h as i64;
        }
        k += 1;
    }
    proof {
        lemma_extent_bounds(displays@, displays@.len() as int);
    }
    if min_x <= max_x {
        max_x - min_x <= i32::MAX as i64 && max_y - min_y <= i32::MAX as i64
    } else {
        true
    }
}

/// The window that spans all monitors (see [`desktop_window`]): x, y, width, height.
pub fn desktop_bounds(displays: &[(i32, i32, u32, u32)]) -> (r: (i32, i32, u32, u32))
    requires
        forall|k: int| 0 <= k < displays@.len() ==> within_desktop(#[trigger] displays@[k]),
        desktop_window(displays@).2 <= i32::MAX,
        desktop_window(displays@).3 <= i32::MAX,
    ensures
        r.0 == desktop_window(displays@).0,
        r.1 == desktop_window(displays@).1,
        r.2 == desktop_window(displays@).2,
        r.3 == desktop_window(displays@).3,
{
    let mut min_x: i32 = i32::MAX;
    let mut min_y: i32 = i32::MAX;
    let mut max_x: i32 = i32::MIN;
    let mut max_y: i32 = i32::MIN;
    let mut k: usize = 0;
    while k < displays.len()
        invariant
            k <= displays@.len(),
            forall|j: int| 0 <= j < displays@.len() ==> within_desktop(#[trigger] displays@[j]),
            (min_x as int, min_y as int, max_x as int, max_y as int) == desktop_extent(
                displays@,
                k as int,
            ),
        decreases displays@.len() - k,
    {
        let (x, y, w, h) = displays[k];
        assert(within_desktop(displays@[k as int]));
        if x < min_x {
            min_x = x;
        }
        if y < min_y {
            min_y = y;
        }
        let right: i32 = x + w as i32;
        let bottom: i32 = y + h as i32;
        if right > max_x {
            max_x = right;
        }
        if bottom > max_y {
            max_y = bottom;
        }
        k += 1;
    }
    proof {
        lemma_extent_bounds(displays@, displays@.len() as int);
    }
    if min_x <= max_x {
        ((min_x, min_y, (max_x - min_x) as u32, (max_y - min_y) as u32))
    } else {
        (min_x, min_y, 1920, 1080)
    }
}

} // verus!
