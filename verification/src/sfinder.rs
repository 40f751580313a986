//! The command line of the external solver and the reading of its results.

use vstd::prelude::*;
use crate::commands::{CoverResultEntry, PathResultEntry, SfinderCommandConfig, SfinderOutput};
use crate::geometry::str_equal;
use crate::text::{
    chars_of, decimal, decimal_string, lemma_part_within_total, lemma_split_lengths, lemma_trim_shorter,
    parse_u32, parse_u32_spec, same_chars, slice_range, split_chars, split_on, string_of, total_len,
    trim, trimmed,
};

verus! {

/// The characters of each string.
pub open spec fn strings_view(v: Seq<String>) -> Seq<Seq<char>> {
    v.map_values(|s: String| s@)
}

/// A flag followed by the value, when the value is present and not empty.
pub open spec fn flag_if_nonempty(flag: Seq<char>, value: Option<String>) -> Seq<Seq<char>> {
    match value {
        Some(v) => if v@.len() > 0 {
            seq![flag, v@]
        } else {
            Seq::empty()
        },
        None => Seq::empty(),
    }
}

/// A flag followed by the value, when the value is present.
pub open spec fn flag_if_some(flag: Seq<char>, value: Option<String>) -> Seq<Seq<char>> {
    match value {
        Some(v) => seq![flag, v@],
        None => Seq::empty(),
    }
}

/// A flag followed by the number in decimal, when the number is present.
pub open spec fn flag_number(flag: Seq<char>, value: Option<u32>) -> Seq<Seq<char>> {
    match value {
        Some(n) => seq![flag, decimal(n as nat)],
        None => Seq::empty(),
    }
}

/// `--tetfu` and the code, for each field code that is not empty.
pub open spec fn tetfu_flags(codes: Seq<String>) -> Seq<Seq<char>>
    decreases codes.len(),
{
    if codes.len() == 0 {
        Seq::empty()
    } else {
        tetfu_flags(codes.drop_last()) + if codes.last()@.len() > 0 {
            seq!["--tetfu"@, codes.last()@]
        } else {
            Seq::empty()
        }
    }
}

/// The flag alone, when it is set.
pub open spec fn switch(flag: Seq<char>, on: bool) -> Seq<Seq<char>> {
    if on {
        seq![flag]
    } else {
        Seq::empty()
    }
}

/// The command is `cover`, which takes a different set of options.
pub open spec fn is_cover(config: SfinderCommandConfig) -> bool {
    config.command@ == "cover"@
}

/// The solver's arguments for a configuration, in order: output base, the
/// command, field codes, page (not for `cover`), the clear-line limit
/// (`--max-clearline` for `cover`, `--clear-line` otherwise), patterns, hold,
/// drop, kicks, format, split and specified-only (these three not for
/// `cover`), reserved, field path, patterns path, threads, max layer, key
/// (not for `cover`) and mode (`cover` only).
pub open spec fn cli_args(config: SfinderCommandConfig) -> Seq<Seq<char>> {
    let cover = is_cover(config);
    flag_if_nonempty("--output-base"@, config.output_base) + seq![config.command@] + tetfu_flags(
        config.tetfu@,
    ) + (if cover {
        Seq::empty()
    } else {
        flag_number("--page"@, config.page)
    }) + (if cover {
        flag_number("--max-clearline"@, config.clear_line)
    } else {
        flag_number("--clear-line"@, config.clear_line)
    }) + flag_if_nonempty("--patterns"@, config.patterns) + flag_if_some("--hold"@, config.hold)
        + flag_if_some("--drop"@, config.drop) + flag_if_some("--kicks"@, config.kicks) + (if cover {
        Seq::empty()
    } else {
        flag_if_nonempty("--format"@, config.format)
    }) + (if !cover && config.split == Some(true) {
        seq!["--split"@, "yes"@]
    } else {
        Seq::empty()
    }) + switch("--specified-only"@, !cover && config.specified_only == Some(true)) + switch(
        "--reserved"@,
        config.reserved == Some(true),
    ) + flag_if_nonempty("--field-path"@, config.field_path) + flag_if_nonempty(
        "--patterns-path"@,
        config.patterns_path,
    ) + flag_number("--threads"@, config.threads) + flag_number("--max-layer"@, config.max_layer)
        + (if cover {
        Seq::empty()
    } else {
        flag_if_some("--key"@, config.key)
    }) + (if cover {
        flag_if_nonempty("--mode"@, config.mode)
    } else {
        Seq::empty()
    })
}

fn push_str(args: &mut Vec<String>, s: &str)
    ensures
        strings_view(final(args)@) == strings_view(old(args)@).push(s@),
{
    args.push(String::from_str(s));
    assert(strings_view(args@) =~= strings_view(old(args)@).push(s@));
}

fn push_string(args: &mut Vec<String>, s: &String)
    ensures
        strings_view(final(args)@) == strings_view(old(args)@).push(s@),
{
    args.push(s.clone());
    assert(strings_view(args@) =~= strings_view(old(args)@).push(s@));
}

fn push_flag_if_nonempty(args: &mut Vec<String>, flag: &str, value: &Option<String>)
    ensures
        strings_view(final(args)@) == strings_view(old(args)@) + flag_if_nonempty(flag@, *value),
{
    if let Some(v) = value {
        if !v.as_str().is_empty() {
            push_str(args, flag);
            push_string(args, v);
        }
    }
    assert(strings_view(args@) =~= strings_view(old(args)@) + flag_if_nonempty(flag@, *value));
}

fn push_flag_if_some(args: &mut Vec<String>, flag: &str, value: &Option<String>)
    ensures
        strings_view(final(args)@) == strings_view(old(args)@) + flag_if_some(flag@, *value),
{
    if let Some(v) = value {
        push_str(args, flag);
        push_string(args, v);
    }
    assert(strings_view(args@) =~= strings_view(old(args)@) + flag_if_some(flag@, *value));
}

fn push_flag_number(args: &mut Vec<String>, flag: &str, value: Option<u32>)
    ensures
        strings_view(final(args)@) == strings_view(old(args)@) + flag_number(flag@, value),
{
    if let Some(n) = value {
        push_str(args, flag);
        let s = decimal_string(n);
        push_string(args, &s);
    }
    assert(strings_view(args@) =~= strings_view(old(args)@) + flag_number(flag@, value));
}

fn push_switch(args: &mut Vec<String>, flag: &str, on: bool)
    ensures
        strings_view(final(args)@) == strings_view(old(args)@) + switch(flag@, on),
{
    if on {
        push_str(args, flag);
    }
    assert(strings_view(args@) =~= strings_view(old(args)@) + switch(flag@, on));
}

/// Builds the solver's argument list from the configuration (see [`cli_args`]).
#[verifier::spinoff_prover]
#[verifier::rlimit(50)]
pub fn build_cli_args(config: &SfinderCommandConfig) -> (args: Vec<String>)
    ensures
        strings_view(args@) == cli_args(*config),
{
    let mut args: Vec<String> = Vec::new();
    let cover = str_equal(config.command.as_str(), "cover");
    assert(cover == is_cover(*config));
    assert(strings_view(args@) =~= Seq::empty());
    push_flag_if_nonempty(&mut args, "--output-base", &config.output_base);
    push_string(&mut args, &config.command);
    let mut i: usize = 0;
    let ghost base = strings_view(args@);
    while i < config.tetfu.len()
        invariant
            i <= config.tetfu@.len(),
            strings_view(args@) == base + tetfu_flags(config.tetfu@.take(i as int)),
        decreases config.tetfu@.len() - i,
    {
        let t = &config.tetfu[i];
        let ghost before = strings_view(args@);
        if !t.as_str().is_empty() {
            push_str(&mut args, "--tetfu");
            push_string(&mut args, t);
        }
        assert(config.tetfu@.take(i + 1).drop_last() =~= config.tetfu@.take(i as int));
        i += 1;
        assert(strings_view(args@) =~= base + tetfu_flags(config.tetfu@.take(i as int)));
    }
    assert(config.tetfu@.take(config.tetfu@.len() as int) =~= config.tetfu@);
    if !cover {
        push_flag_number(&mut args, "--page", config.page);
    }
    if cover {
        push_flag_number(&mut args, "--max-clearline", config.clear_line);
    } else {
        push_flag_number(&mut args, "--clear-line", config.clear_line);
    }
    push_flag_if_nonempty(&mut args, "--patterns", &config.patterns);
    push_flag_if_some(&mut args, "--hold", &config.hold);
    push_flag_if_some(&mut args, "--drop", &config.drop);
    push_flag_if_some(&mut args, "--kicks", &config.kicks);
    if !cover {
        push_flag_if_nonempty(&mut args, "--format", &config.format);
    }
    let split = match config.split {
        Some(b) => b,
        None => false,
    };
    if !cover && split {
        push_str(&mut args, "--split");
        push_str(&mut args, "yes");
    }
    let specified = match config.specified_only {
        Some(b) => b,
        None => false,
    };
    push_switch(&mut args, "--specified-only", !cover && specified);
    let reserved = match config.reserved {
        Some(b) => b,
        None => false,
    };
    push_switch(&mut args, "--reserved", reserved);
    push_flag_if_nonempty(&mut args, "--field-path", &config.field_path);
    push_flag_if_nonempty(&mut args, "--patterns-path", &config.patterns_path);
    push_flag_number(&mut args, "--threads", config.threads);
    push_flag_number(&mut args, "--max-layer", config.max_layer);
    if !cover {
        push_flag_if_some(&mut args, "--key", &config.key);
    }
    if cover {
        push_flag_if_nonempty(&mut args, "--mode", &config.mode);
    }
    assert(strings_view(args@) =~= cli_args(*config));
    args
}

/// A `cover` run takes no page, format, split, specified-only or key option:
/// configurations that differ only in those give the same arguments.
pub proof fn lemma_cover_ignores_path_options(c1: SfinderCommandConfig, c2: SfinderCommandConfig)
    requires
        is_cover(c1),
        c1.command == c2.command,
        c1.tetfu == c2.tetfu,
        c1.clear_line == c2.clear_line,
        c1.patterns == c2.patterns,
        c1.hold == c2.hold,
        c1.drop == c2.drop,
        c1.kicks == c2.kicks,
        c1.reserved == c2.reserved,
        c1.output_base == c2.output_base,
        c1.field_path == c2.field_path,
        c1.patterns_path == c2.patterns_path,
        c1.threads == c2.threads,
        c1.max_layer == c2.max_layer,
        c1.mode == c2.mode,
    ensures
        cli_args(c1) == cli_args(c2),
{
}

/// Only a `cover` run takes the mode option: other configurations that differ
/// only in it give the same arguments.
pub proof fn lemma_mode_only_for_cover(c1: SfinderCommandConfig, c2: SfinderCommandConfig)
    requires
        !is_cover(c1),
        c1.command == c2.command,
        c1.tetfu == c2.tetfu,
        c1.page == c2.page,
        c1.clear_line == c2.clear_line,
        c1.patterns == c2.patterns,
        c1.hold == c2.hold,
        c1.drop == c2.drop,
        c1.kicks == c2.kicks,
        c1.format == c2.format,
        c1.split == c2.split,
        c1.specified_only == c2.specified_only,
        c1.reserved == c2.reserved,
        c1.output_base == c2.output_base,
        c1.field_path == c2.field_path,
        c1.patterns_path == c2.patterns_path,
        c1.threads == c2.threads,
        c1.max_layer == c2.max_layer,
        c1.key == c2.key,
    ensures
        cli_args(c1) == cli_args(c2),
{
}

/// Somewhere in the arguments, `flag` is immediately followed by `value`.
pub open spec fn passes(args: Seq<Seq<char>>, flag: Seq<char>, value: Seq<char>) -> bool {
    exists|i: int| 0 <= i && i + 1 < args.len() && #[trigger] args[i] == flag && args[i + 1] == value
}

/// Somewhere in the arguments stands `flag`.
pub open spec fn mentions(args: Seq<Seq<char>>, flag: Seq<char>) -> bool {
    exists|i: int| 0 <= i < args.len() && #[trigger] args[i] == flag
}

proof fn lemma_passes_pair(flag: Seq<char>, value: Seq<char>)
    ensures
        passes(seq![flag, value], flag, value),
        mentions(seq![flag], flag),
{
    assert(seq![flag, value][0] == flag && seq![flag, value][1] == value);
    assert(seq![flag][0] == flag);
}

proof fn lemma_passes_concat(x: Seq<Seq<char>>, y: Seq<Seq<char>>, flag: Seq<char>, value: Seq<char>)
    ensures
        (passes(x, flag, value) || passes(y, flag, value)) ==> passes(x + y, flag, value),
        (mentions(x, flag) || mentions(y, flag)) ==> mentions(x + y, flag),
{
    if passes(x, flag, value) {
        let i = choose|i: int| 0 <= i && i + 1 < x.len() && #[trigger] x[i] == flag && x[i + 1] == value;
        assert((x + y)[i] == x[i] && (x + y)[i + 1] == x[i + 1]);
    } else if passes(y, flag, value) {
        let i = choose|i: int| 0 <= i && i + 1 < y.len() && #[trigger] y[i] == flag && y[i + 1] == value;
        assert((x + y)[x.len() + i] == y[i] && (x + y)[x.len() + i + 1] == y[i + 1]);
    }
    if mentions(x, flag) {
        let i = choose|i: int| 0 <= i < x.len() && #[trigger] x[i] == flag;
        assert((x + y)[i] == x[i]);
    } else if mentions(y, flag) {
        let i = choose|i: int| 0 <= i < y.len() && #[trigger] y[i] == flag;
        assert((x + y)[x.len() + i] == y[i]);
    }
}

/// A flag and its value, or a flag alone, stay in the arguments when more come
/// before or after them.
proof fn lemma_flags_kept(flag: Seq<char>, value: Seq<char>)
    ensures
        forall|x: Seq<Seq<char>>, y: Seq<Seq<char>>|
            (passes(x, flag, value) || passes(y, flag, value)) ==> #[trigger] passes(x + y, flag, value),
        forall|x: Seq<Seq<char>>, y: Seq<Seq<char>>|
            (mentions(x, flag) || mentions(y, flag)) ==> #[trigger] mentions(x + y, flag),
{
    assert forall|x: Seq<Seq<char>>, y: Seq<Seq<char>>|
        (passes(x, flag, value) || passes(y, flag, value)) implies #[trigger] passes(x + y, flag, value) by {
        lemma_passes_concat(x, y, flag, value);
    }
    assert forall|x: Seq<Seq<char>>, y: Seq<Seq<char>>|
        (mentions(x, flag) || mentions(y, flag)) implies #[trigger] mentions(x + y, flag) by {
        lemma_passes_concat(x, y, flag, value);
    }
}

/// Each field code that is not empty is passed after `--tetfu`.
proof fn lemma_tetfu_passes(codes: Seq<String>, j: int)
    requires
        0 <= j < codes.len(),
        codes[j]@.len() > 0,
    ensures
        passes(tetfu_flags(codes), "--tetfu"@, codes[j]@),
    decreases codes.len(),
{
    lemma_flags_kept("--tetfu"@, codes[j]@);
    if j == codes.len() - 1 {
        lemma_passes_pair("--tetfu"@, codes[j]@);
    } else {
        lemma_tetfu_passes(codes.drop_last(), j);
    }
}

proof fn lemma_tetfu_carried(config: SfinderCommandConfig, j: int)
    requires
        0 <= j < config.tetfu@.len(),
        config.tetfu@[j]@.len() > 0,
    ensures
        passes(cli_args(config), "--tetfu"@, config.tetfu@[j]@),
{
    lemma_flags_kept("--tetfu"@, config.tetfu@[j]@);
    lemma_tetfu_passes(config.tetfu@, j);
}

proof fn lemma_passes_output_base(config: SfinderCommandConfig)
    ensures
        config.output_base is Some && config.output_base.unwrap()@.len() > 0 ==> passes(cli_args(config), "--output-base"@, config.output_base.unwrap()@),
{
    if config.output_base is Some && config.output_base.unwrap()@.len() > 0 {
        lemma_flags_kept("--output-base"@, config.output_base.unwrap()@);
        lemma_passes_pair("--output-base"@, config.output_base.unwrap()@);
    }
}

proof fn lemma_passes_page(config: SfinderCommandConfig)
    ensures
        !is_cover(config) && config.page is Some ==> passes(cli_args(config), "--page"@, decimal(config.page.unwrap() as nat)),
{
    if !is_cover(config) && config.page is Some {
        lemma_flags_kept("--page"@, decimal(config.page.unwrap() as nat));
        lemma_passes_pair("--page"@, decimal(config.page.unwrap() as nat));
    }
}

proof fn lemma_passes_clear_line(config: SfinderCommandConfig)
    ensures
        !is_cover(config) && config.clear_line is Some ==> passes(cli_args(config), "--clear-line"@, decimal(config.clear_line.unwrap() as nat)),
{
    if !is_cover(config) && config.clear_line is Some {
        lemma_flags_kept("--clear-line"@, decimal(config.clear_line.unwrap() as nat));
        lemma_passes_pair("--clear-line"@, decimal(config.clear_line.unwrap() as nat));
    }
}

proof fn lemma_passes_max_clearline(config: SfinderCommandConfig)
    ensures
        is_cover(config) && config.clear_line is Some ==> passes(cli_args(config), "--max-clearline"@, decimal(config.clear_line.unwrap() as nat)),
{
    if is_cover(config) && config.clear_line is Some {
        lemma_flags_kept("--max-clearline"@, decimal(config.clear_line.unwrap() as nat));
        lemma_passes_pair("--max-clearline"@, decimal(config.clear_line.unwrap() as nat));
    }
}

proof fn lemma_passes_patterns(config: SfinderCommandConfig)
    ensures
        config.patterns is Some && config.patterns.unwrap()@.len() > 0 ==> passes(cli_args(config), "--patterns"@, config.patterns.unwrap()@),
{
    if config.patterns is Some && config.patterns.unwrap()@.len() > 0 {
        lemma_flags_kept("--patterns"@, config.patterns.unwrap()@);
        lemma_passes_pair("--patterns"@, config.patterns.unwrap()@);
    }
}

proof fn lemma_passes_hold(config: SfinderCommandConfig)
    ensures
        config.hold is Some ==> passes(cli_args(config), "--hold"@, config.hold.unwrap()@),
{
    if config.hold is Some {
        lemma_flags_kept("--hold"@, config.hold.unwrap()@);
        lemma_passes_pair("--hold"@, config.hold.unwrap()@);
    }
}

proof fn lemma_passes_drop(config: SfinderCommandConfig)
    ensures
        config.drop is Some ==> passes(cli_args(config), "--drop"@, config.drop.unwrap()@),
{
    if config.drop is Some {
        lemma_flags_kept("--drop"@, config.drop.unwrap()@);
        lemma_passes_pair("--drop"@, config.drop.unwrap()@);
    }
}

proof fn lemma_passes_kicks(config: SfinderCommandConfig)
    ensures
        config.kicks is Some ==> passes(cli_args(config), "--kicks"@, config.kicks.unwrap()@),
{
    if config.kicks is Some {
        lemma_flags_kept("--kicks"@, config.kicks.unwrap()@);
        lemma_passes_pair("--kicks"@, config.kicks.unwrap()@);
    }
}

proof fn lemma_passes_format(config: SfinderCommandConfig)
    ensures
        !is_cover(config) && config.format is Some && config.format.unwrap()@.len() > 0 ==> passes(cli_args(config), "--format"@, config.format.unwrap()@),
{
    if !is_cover(config) && config.format is Some && config.format.unwrap()@.len() > 0 {
        lemma_flags_kept("--format"@, config.format.unwrap()@);
        lemma_passes_pair("--format"@, config.format.unwrap()@);
    }
}

proof fn lemma_passes_split(config: SfinderCommandConfig)
    ensures
        !is_cover(config) && config.split == Some(true) ==> passes(cli_args(config), "--split"@, "yes"@),
{
    if !is_cover(config) && config.split == Some(true) {
        lemma_flags_kept("--split"@, "yes"@);
        lemma_passes_pair("--split"@, "yes"@);
    }
}

proof fn lemma_passes_specified_only(config: SfinderCommandConfig)
    ensures
        !is_cover(config) && config.specified_only == Some(true) ==> mentions(cli_args(config), "--specified-only"@),
{
    if !is_cover(config) && config.specified_only == Some(true) {
        lemma_flags_kept("--specified-only"@, "yes"@);
        lemma_passes_pair("--specified-only"@, "yes"@);
    }
}

proof fn lemma_passes_reserved(config: SfinderCommandConfig)
    ensures
        config.reserved == Some(true) ==> mentions(cli_args(config), "--reserved"@),
{
    if config.reserved == Some(true) {
        lemma_flags_kept("--reserved"@, "yes"@);
        lemma_passes_pair("--reserved"@, "yes"@);
    }
}

proof fn lemma_passes_field_path(config: SfinderCommandConfig)
    ensures
        config.field_path is Some && config.field_path.unwrap()@.len() > 0 ==> passes(cli_args(config), "--field-path"@, config.field_path.unwrap()@),
{
    if config.field_path is Some && config.field_path.unwrap()@.len() > 0 {
        lemma_flags_kept("--field-path"@, config.field_path.unwrap()@);
        lemma_passes_pair("--field-path"@, config.field_path.unwrap()@);
    }
}

proof fn lemma_passes_patterns_path(config: SfinderCommandConfig)
    ensures
        config.patterns_path is Some && config.patterns_path.unwrap()@.len() > 0 ==> passes(cli_args(config), "--patterns-path"@, config.patterns_path.unwrap()@),
{
    if config.patterns_path is Some && config.patterns_path.unwrap()@.len() > 0 {
        lemma_flags_kept("--patterns-path"@, config.patterns_path.unwrap()@);
        lemma_passes_pair("--patterns-path"@, config.patterns_path.unwrap()@);
    }
}

proof fn lemma_passes_threads(config: SfinderCommandConfig)
    ensures
        config.threads is Some ==> passes(cli_args(config), "--threads"@, decimal(config.threads.unwrap() as nat)),
{
    if config.threads is Some {
        lemma_flags_kept("--threads"@, decimal(config.threads.unwrap() as nat));
        lemma_passes_pair("--threads"@, decimal(config.threads.unwrap() as nat));
    }
}

proof fn lemma_passes_max_layer(config: SfinderCommandConfig)
    ensures
        config.max_layer is Some ==> passes(cli_args(config), "--max-layer"@, decimal(config.max_layer.unwrap() as nat)),
{
    if config.max_layer is Some {
        lemma_flags_kept("--max-layer"@, decimal(config.max_layer.unwrap() as nat));
        lemma_passes_pair("--max-layer"@, decimal(config.max_layer.unwrap() as nat));
    }
}

proof fn lemma_passes_key(config: SfinderCommandConfig)
    ensures
        !is_cover(config) && config.key is Some ==> passes(cli_args(config), "--key"@, config.key.unwrap()@),
{
    if !is_cover(config) && config.key is Some {
        lemma_flags_kept("--key"@, config.key.unwrap()@);
        lemma_passes_pair("--key"@, config.key.unwrap()@);
    }
}

proof fn lemma_passes_mode(config: SfinderCommandConfig)
    ensures
        is_cover(config) && config.mode is Some && config.mode.unwrap()@.len() > 0 ==> passes(cli_args(config), "--mode"@, config.mode.unwrap()@),
{
    if is_cover(config) && config.mode is Some && config.mode.unwrap()@.len() > 0 {
        lemma_flags_kept("--mode"@, config.mode.unwrap()@);
        lemma_passes_pair("--mode"@, config.mode.unwrap()@);
    }
}

/// The command is the first argument, after the output base when there is one.
proof fn lemma_command_first(config: SfinderCommandConfig)
    ensures
        (config.output_base is Some && config.output_base.unwrap()@.len() > 0) ==> cli_args(config)[2]
            == config.command@,
        !(config.output_base is Some && config.output_base.unwrap()@.len() > 0) ==> cli_args(config)[0]
            == config.command@,
{
    let ob = flag_if_nonempty("--output-base"@, config.output_base);
    assert(ob.len() == 0 || ob.len() == 2);
    let head = ob + seq![config.command@];
    assert(head[ob.len() as int] == config.command@);
    assert(cli_args(config)[ob.len() as int] == head[ob.len() as int]);
}

proof fn lemma_tetfu_all_carried(config: SfinderCommandConfig)
    ensures
        forall|j: int|
            0 <= j < config.tetfu@.len() && (#[trigger] config.tetfu@[j])@.len() > 0 ==> passes(
                cli_args(config),
                "--tetfu"@,
                config.tetfu@[j]@,
            ),
{
    assert forall|j: int|
        0 <= j < config.tetfu@.len() && (#[trigger] config.tetfu@[j])@.len() > 0 implies passes(
        cli_args(config),
        "--tetfu"@,
        config.tetfu@[j]@,
    ) by {
        lemma_tetfu_carried(config, j);
    }
}

/// Nothing the configuration sets is lost on the way to the solver: the
/// command comes first (after the output base, when there is one), every
/// field code that is not empty follows a `--tetfu`, each option that is set
/// (and not empty, for the text options that skip empty text) follows its
/// flag, numbers in decimal, and each switch that is on is there; options that
/// a `cover` run does not take (page, format, split, specified-only, key) and
/// the mode that only it takes are passed for the runs that take them.
pub proof fn lemma_cli_args_carry_options(config: SfinderCommandConfig)
    ensures
        (config.output_base is Some && config.output_base.unwrap()@.len() > 0) ==> cli_args(config)[2] == config.command@,
        !(config.output_base is Some && config.output_base.unwrap()@.len() > 0) ==> cli_args(config)[0] == config.command@,
        config.output_base is Some && config.output_base.unwrap()@.len() > 0 ==> passes(
            cli_args(config),
            "--output-base"@,
            config.output_base.unwrap()@,
        ),
        forall|j: int|
            0 <= j < config.tetfu@.len() && (#[trigger] config.tetfu@[j])@.len() > 0 ==> passes(
                cli_args(config),
                "--tetfu"@,
                config.tetfu@[j]@,
            ),
        !is_cover(config) && config.page is Some ==> passes(
            cli_args(config),
            "--page"@,
            decimal(config.page.unwrap() as nat),
        ),
        !is_cover(config) && config.clear_line is Some ==> passes(
            cli_args(config),
            "--clear-line"@,
            decimal(config.clear_line.unwrap() as nat),
        ),
        is_cover(config) && config.clear_line is Some ==> passes(
            cli_args(config),
            "--max-clearline"@,
            decimal(config.clear_line.unwrap() as nat),
        ),
        config.patterns is Some && config.patterns.unwrap()@.len() > 0 ==> passes(cli_args(config), "--patterns"@, config.patterns.unwrap()@),
        config.hold is Some ==> passes(cli_args(config), "--hold"@, config.hold.unwrap()@),
        config.drop is Some ==> passes(cli_args(config), "--drop"@, config.drop.unwrap()@),
        config.kicks is Some ==> passes(cli_args(config), "--kicks"@, config.kicks.unwrap()@),
        !is_cover(config) && config.format is Some && config.format.unwrap()@.len() > 0 ==> passes(
            cli_args(config),
            "--format"@,
            config.format.unwrap()@,
        ),
        !is_cover(config) && config.split == Some(true) ==> passes(cli_args(config), "--split"@, "yes"@),
        !is_cover(config) && config.specified_only == Some(true) ==> mentions(
            cli_args(config),
            "--specified-only"@,
        ),
        config.reserved == Some(true) ==> mentions(cli_args(config), "--reserved"@),
        config.field_path is Some && config.field_path.unwrap()@.len() > 0 ==> passes(
            cli_args(config),
            "--field-path"@,
            config.field_path.unwrap()@,
        ),
        config.patterns_path is Some && config.patterns_path.unwrap()@.len() > 0 ==> passes(
            cli_args(config),
            "--patterns-path"@,
            config.patterns_path.unwrap()@,
        ),
        config.threads is Some ==> passes(cli_args(config), "--threads"@, decimal(config.threads.unwrap() as nat)),
        config.max_layer is Some ==> passes(cli_args(config), "--max-layer"@, decimal(config.max_layer.unwrap() as nat)),
        !is_cover(config) && config.key is Some ==> passes(cli_args(config), "--key"@, config.key.unwrap()@),
        is_cover(config) && config.mode is Some && config.mode.unwrap()@.len() > 0 ==> passes(
            cli_args(config),
            "--mode"@,
            config.mode.unwrap()@,
        ),
{
    lemma_command_first(config);
    lemma_tetfu_all_carried(config);
    lemma_passes_output_base(config);
    lemma_passes_page(config);
    lemma_passes_clear_line(config);
    lemma_passes_max_clearline(config);
    lemma_passes_patterns(config);
    lemma_passes_hold(config);
    lemma_passes_drop(config);
    lemma_passes_kicks(config);
    lemma_passes_format(config);
    lemma_passes_split(config);
    lemma_passes_specified_only(config);
    lemma_passes_reserved(config);
    lemma_passes_field_path(config);
    lemma_passes_patterns_path(config);
    lemma_passes_threads(config);
    lemma_passes_max_layer(config);
    lemma_passes_key(config);
    lemma_passes_mode(config);
}

/// The lines of a results table after its header line.
pub open spec fn data_rows(content: Seq<char>) -> Seq<Seq<char>> {
    split_on(content, '\n').drop_first()
}

/// The comma-separated columns of a line.
pub open spec fn columns(row: Seq<char>) -> Seq<Seq<char>> {
    split_on(row, ',')
}

/// A line with at least five columns (pattern, coverage, used, unused, field codes).
pub open spec fn is_record(row: Seq<char>) -> bool {
    columns(row).len() >= 5
}

/// The lines that are records, in order.
pub open spec fn records(rows: Seq<Seq<char>>) -> Seq<Seq<char>>
    decreases rows.len(),
{
    if rows.len() == 0 {
        Seq::empty()
    } else if is_record(rows.last()) {
        records(rows.drop_last()).push(rows.last())
    } else {
        records(rows.drop_last())
    }
}

proof fn lemma_records_len(rows: Seq<Seq<char>>)
    ensures
        records(rows).len() <= rows.len(),
    decreases rows.len(),
{
    if rows.len() > 0 {
        lemma_records_len(rows.drop_last());
    }
}

/// The entry a `cover` record gives: its trimmed pattern, field codes, coverage
/// (0 when it is not a number) and used pieces.
pub open spec fn cover_entry_of(e: CoverResultEntry, row: Seq<char>) -> bool {
    let c = columns(row);
    &&& e.pattern@ == trim(c[0])
    &&& e.fumen@ == trim(c[4])
    &&& e.coverage == match parse_u32_spec(trim(c[1])) {
        Some(v) => v,
        None => 0u32,
    }
    &&& e.used@ == trim(c[2])
}

/// Reads the records of a `cover` results table, and counts them.
pub fn cover_results_from_csv(content: &str) -> (res: (Vec<CoverResultEntry>, u32))
    requires
        content@.len() < u32::MAX,
    ensures
        res.1 == records(data_rows(content@)).len(),
        res.0@.len() == records(data_rows(content@)).len(),
        forall|i: int|
            0 <= i < res.0@.len() ==> cover_entry_of(
                #[trigger] res.0@[i],
                records(data_rows(content@))[i],
            ),
{
    let chars = chars_of(content);
    let lines = split_chars(chars.as_slice(), '\n');
    proof {
        lemma_split_lengths(content@, '\n');
    }
    let ghost rows = data_rows(content@);
    let mut results: Vec<CoverResultEntry> = Vec::new();
    let mut total: u32 = 0;
    let mut r: usize = 1;
    while r < lines.len()
        invariant
            1 <= r <= lines@.len(),
            lines@.len() == split_on(content@, '\n').len(),
            lines@.len() <= content@.len() + 1,
            content@.len() < u32::MAX,
            forall|i: int| 0 <= i < lines@.len() ==> (#[trigger] lines@[i])@ == split_on(content@, '\n')[i],
            rows == data_rows(content@),
            total == records(rows.take(r - 1)).len(),
            total <= r - 1,
            results@.len() == total,
            forall|i: int|
                0 <= i < results@.len() ==> cover_entry_of(
                    #[trigger] results@[i],
                    records(rows.take(r - 1))[i],
                ),
        decreases lines@.len() - r,
    {
        let row = &lines[r];
        assert(row@ == rows[r - 1]);
        assert(rows.take(r as int).drop_last() =~= rows.take(r - 1));
        assert(rows.take(r as int).last() == rows[r - 1]);
        let cols = split_chars(row.as_slice(), ',');
        if cols.len() >= 5 {
            let e = CoverResultEntry {
                pattern: string_of(trimmed(cols[0].as_slice()).as_slice()),
                fumen: string_of(trimmed(cols[4].as_slice()).as_slice()),
                coverage: match parse_u32(trimmed(cols[1].as_slice()).as_slice()) {
                    Some(v) => v,
                    None => 0,
                },
                used: string_of(trimmed(cols[2].as_slice()).as_slice()),
            };
            results.push(e);
            total += 1;
            proof {
                assert(records(rows.take(r as int)) == records(rows.take(r - 1)).push(rows[r - 1]));
                assert forall|i: int|
                    0 <= i < results@.len() implies cover_entry_of(
                    #[trigger] results@[i],
                    records(rows.take(r as int))[i],
                ) by {
                    if i < results@.len() - 1 {
                        assert(cover_entry_of(results@[i], records(rows.take(r - 1))[i]));
                    }
                }
            }
        }
        r += 1;
    }
    assert(rows.take(lines@.len() - 1) =~= rows);
    (results, total)
}

/// The parts that are not empty once trimmed, trimmed.
pub open spec fn nonempty_trimmed(parts: Seq<Seq<char>>) -> Seq<Seq<char>>
    decreases parts.len(),
{
    if parts.len() == 0 {
        Seq::empty()
    } else if trim(parts.last()).len() > 0 {
        nonempty_trimmed(parts.drop_last()).push(trim(parts.last()))
    } else {
        nonempty_trimmed(parts.drop_last())
    }
}

/// The field codes a record lists: its fifth column split at `;`, each
/// trimmed, empty ones dropped.
pub open spec fn record_fumens(row: Seq<char>) -> Seq<Seq<char>> {
    nonempty_trimmed(split_on(trim(columns(row)[4]), ';'))
}

/// The pieces a record uses: its third column, trimmed.
pub open spec fn record_used(row: Seq<char>) -> Seq<char> {
    trim(columns(row)[2])
}

/// Each field code listed by the records, with the pieces its record uses, in order.
pub open spec fn occurrences(recs: Seq<Seq<char>>) -> Seq<(Seq<char>, Seq<char>)>
    decreases recs.len(),
{
    if recs.len() == 0 {
        Seq::empty()
    } else {
        occurrences(recs.drop_last()) + record_fumens(recs.last()).map_values(
            |f: Seq<char>| (f, record_used(recs.last())),
        )
    }
}

/// The index of the entry for field code `f`, or -1.
pub open spec fn entry_index(t: Seq<(Seq<char>, nat, Seq<char>)>, f: Seq<char>) -> int
    decreases t.len(),
{
    if t.len() == 0 {
        -1
    } else if entry_index(t.drop_last(), f) >= 0 {
        entry_index(t.drop_last(), f)
    } else if t.last().0 == f {
        t.len() - 1
    } else {
        -1
    }
}

/// Counts each field code in order of first appearance: how often it occurs,
/// and the pieces of the last of its records that names any (empty if none).
pub open spec fn tally(occ: Seq<(Seq<char>, Seq<char>)>) -> Seq<(Seq<char>, nat, Seq<char>)>
    decreases occ.len(),
{
    if occ.len() == 0 {
        Seq::empty()
    } else {
        let t = tally(occ.drop_last());
        let (f, u) = occ.last();
        let i = entry_index(t, f);
        if i >= 0 {
            t.update(i, (f, t[i].1 + 1, if u.len() > 0 { u } else { t[i].2 }))
        } else {
            t.push((f, 1nat, u))
        }
    }
}

/// The entries with count `c`, in order.
pub open spec fn entries_with(t: Seq<(Seq<char>, nat, Seq<char>)>, c: nat) -> Seq<(Seq<char>, nat, Seq<char>)>
    decreases t.len(),
{
    if t.len() == 0 {
        Seq::empty()
    } else if t.last().1 == c {
        entries_with(t.drop_last(), c).push(t.last())
    } else {
        entries_with(t.drop_last(), c)
    }
}

/// The entries with counts from `hi` down to (not including) `lo`, highest
/// counts first and in order within one count.
pub open spec fn band(t: Seq<(Seq<char>, nat, Seq<char>)>, hi: int, lo: int) -> Seq<(Seq<char>, nat, Seq<char>)>
    decreases hi - lo,
{
    if hi <= lo {
        Seq::empty()
    } else {
        entries_with(t, hi as nat) + band(t, hi - 1, lo)
    }
}

/// The greatest count.
pub open spec fn max_count(t: Seq<(Seq<char>, nat, Seq<char>)>) -> nat
    decreases t.len(),
{
    if t.len() == 0 {
        0
    } else if t.last().1 > max_count(t.drop_last()) {
        t.last().1
    } else {
        max_count(t.drop_last())
    }
}

/// The coverage of each field code in a `path` results table, by descending
/// coverage (in order of first appearance within one coverage).
pub open spec fn path_coverage(content: Seq<char>) -> Seq<(Seq<char>, nat, Seq<char>)> {
    let t = tally(occurrences(records(data_rows(content))));
    band(t, max_count(t) as int, 0)
}

/// The entry holds the field code, coverage and used pieces.
pub open spec fn path_entry_is(e: PathResultEntry, x: (Seq<char>, nat, Seq<char>)) -> bool {
    e.fumen@ == x.0 && e.coverage as nat == x.1 && e.used@ == x.2
}

proof fn lemma_band_step(t: Seq<(Seq<char>, nat, Seq<char>)>, hi: int, lo: int)
    requires
        lo <= hi,
    ensures
        band(t, hi, lo - 1) == band(t, hi, lo) + entries_with(t, lo as nat),
    decreases hi - lo,
{
    if lo == hi {
        assert(band(t, hi - 1, lo - 1) =~= Seq::<(Seq<char>, nat, Seq<char>)>::empty());
        assert(band(t, hi, lo - 1) =~= band(t, hi, lo) + entries_with(t, lo as nat));
    } else {
        lemma_band_step(t, hi - 1, lo);
        let a = entries_with(t, hi as nat);
        let b = band(t, hi - 1, lo);
        let c = entries_with(t, lo as nat);
        assert(band(t, hi, lo - 1) == a + band(t, hi - 1, lo - 1));
        assert(band(t, hi - 1, lo - 1) == b + c);
        assert(band(t, hi, lo) == a + b);
        assert(a + (b + c) =~= (a + b) + c);
    }
}

proof fn lemma_tally_counts(occ: Seq<(Seq<char>, Seq<char>)>)
    ensures
        forall|i: int|
            0 <= i < tally(occ).len() ==> 1 <= (#[trigger] tally(occ)[i]).1 <= occ.len(),
    decreases occ.len(),
{
    if occ.len() > 0 {
        let t = tally(occ.drop_last());
        lemma_tally_counts(occ.drop_last());
        lemma_entry_index(t);
        let (f, u) = occ.last();
        let e = entry_index(t, f);
        assert forall|i: int|
            0 <= i < tally(occ).len() implies 1 <= (#[trigger] tally(occ)[i]).1 <= occ.len() by {
            if e >= 0 {
                if i != e {
                    assert(tally(occ)[i] == t[i]);
                }
            } else {
                if i < t.len() {
                    assert(tally(occ)[i] == t[i]);
                }
            }
        }
    }
}

proof fn lemma_entry_index(t: Seq<(Seq<char>, nat, Seq<char>)>)
    ensures
        forall|f: Seq<char>|
            #![trigger entry_index(t, f)]
            -1 <= entry_index(t, f) < t.len() && (entry_index(t, f) >= 0 ==> t[entry_index(t, f)].0 == f)
                && (entry_index(t, f) < 0 ==> forall|j: int| 0 <= j < t.len() ==> t[j].0 != f)
                && (forall|j: int| 0 <= j < entry_index(t, f) ==> t[j].0 != f),
    decreases t.len(),
{
    if t.len() > 0 {
        lemma_entry_index(t.drop_last());
        assert forall|f: Seq<char>| #![trigger entry_index(t, f)]
            -1 <= entry_index(t, f) < t.len() && (entry_index(t, f) >= 0 ==> t[entry_index(t, f)].0 == f)
                && (entry_index(t, f) < 0 ==> forall|j: int| 0 <= j < t.len() ==> t[j].0 != f)
                && (forall|j: int| 0 <= j < entry_index(t, f) ==> t[j].0 != f) by {
            let d = entry_index(t.drop_last(), f);
            assert forall|j: int| 0 <= j < t.len() - 1 implies t[j] == t.drop_last()[j] by {}
            if d >= 0 {
                assert(entry_index(t, f) == d);
            }
        }
    }
}

/// How many times the occurrences name field code `f`.
pub open spec fn occ_count(occ: Seq<(Seq<char>, Seq<char>)>, f: Seq<char>) -> nat
    decreases occ.len(),
{
    if occ.len() == 0 {
        0
    } else {
        occ_count(occ.drop_last(), f) + if occ.last().0 == f {
            1nat
        } else {
            0nat
        }
    }
}

/// The field codes of the entries are distinct.
pub open spec fn distinct_codes(t: Seq<(Seq<char>, nat, Seq<char>)>) -> bool {
    forall|i: int, j: int| 0 <= i < j < t.len() ==> #[trigger] t[i].0 != #[trigger] t[j].0
}

proof fn lemma_tally_exact(occ: Seq<(Seq<char>, Seq<char>)>)
    ensures
        distinct_codes(tally(occ)),
        forall|i: int|
            0 <= i < tally(occ).len() ==> (#[trigger] tally(occ)[i]).1 == occ_count(
                occ,
                tally(occ)[i].0,
            ),
        forall|f: Seq<char>|
            occ_count(occ, f) > 0 ==> exists|i: int|
                0 <= i < tally(occ).len() && (#[trigger] tally(occ)[i]).0 == f,
    decreases occ.len(),
{
    if occ.len() > 0 {
        let occ0 = occ.drop_last();
        let t = tally(occ0);
        lemma_tally_exact(occ0);
        lemma_entry_index(t);
        let (f, u) = occ.last();
        let e = entry_index(t, f);
        let t2 = tally(occ);
        if e >= 0 {
            assert(t2 == t.update(e, (f, t[e].1 + 1, if u.len() > 0 { u } else { t[e].2 })));
            assert forall|i: int| 0 <= i < t2.len() implies (#[trigger] t2[i]).0 == t[i].0 by {}
            assert forall|f2: Seq<char>| occ_count(occ, f2) > 0 implies exists|i: int|
                0 <= i < t2.len() && (#[trigger] t2[i]).0 == f2 by {
                if f2 == f {
                    assert(t2[e].0 == f2);
                } else {
                    assert(occ_count(occ, f2) == occ_count(occ0, f2));
                    let i = choose|i: int| 0 <= i < t.len() && (#[trigger] t[i]).0 == f2;
                    assert(t2[i].0 == f2);
                }
            }
        } else {
            assert(t2 == t.push((f, 1nat, u)));
            assert(occ_count(occ0, f) == 0) by {
                if occ_count(occ0, f) > 0 {
                    let i = choose|i: int| 0 <= i < t.len() && (#[trigger] t[i]).0 == f;
                }
            }
            assert forall|i: int| 0 <= i < t.len() implies (#[trigger] t2[i]) == t[i] by {}
            assert forall|f2: Seq<char>| occ_count(occ, f2) > 0 implies exists|i: int|
                0 <= i < t2.len() && (#[trigger] t2[i]).0 == f2 by {
                if f2 == f {
                    assert(t2[t.len() as int].0 == f2);
                } else {
                    assert(occ_count(occ, f2) == occ_count(occ0, f2));
                    let i = choose|i: int| 0 <= i < t.len() && (#[trigger] t[i]).0 == f2;
                    assert(t2[i].0 == f2);
                }
            }
        }
    }
}

proof fn lemma_entries_with_from(t: Seq<(Seq<char>, nat, Seq<char>)>, c: nat)
    ensures
        forall|i: int|
            0 <= i < entries_with(t, c).len() ==> (#[trigger] entries_with(t, c)[i]).1 == c
                && t.contains(entries_with(t, c)[i]),
        forall|k: int| 0 <= k < t.len() && (#[trigger] t[k]).1 == c ==> entries_with(t, c).contains(
            t[k],
        ),
        distinct_codes(t) ==> distinct_codes(entries_with(t, c)),
    decreases t.len(),
{
    if t.len() > 0 {
        let t0 = t.drop_last();
        lemma_entries_with_from(t0, c);
        let r0 = entries_with(t0, c);
        let r = entries_with(t, c);
        assert forall|i: int| 0 <= i < r.len() implies (#[trigger] r[i]).1 == c && t.contains(r[i]) by {
            if i < r0.len() {
                assert(r[i] == r0[i]);
                let k = choose|k: int| 0 <= k < t0.len() && t0[k] == r0[i];
                assert(t[k] == r0[i]);
            } else {
                assert(r[i] == t.last());
                assert(t[t.len() - 1] == t.last());
            }
        }
        assert forall|k: int| 0 <= k < t.len() && (#[trigger] t[k]).1 == c implies r.contains(t[k]) by {
            if k < t.len() - 1 {
                assert(t[k] == t0[k]);
                let i = choose|i: int| 0 <= i < r0.len() && r0[i] == t0[k];
                assert(r[i] == t[k]);
            } else {
                assert(r[r.len() - 1] == t[k]);
            }
        }
        if distinct_codes(t) {
            assert(distinct_codes(t0)) by {
                assert forall|i: int, j: int| 0 <= i < j < t0.len() implies #[trigger] t0[i].0
                    != #[trigger] t0[j].0 by {
                    assert(t0[i] == t[i] && t0[j] == t[j]);
                }
            }
            assert forall|i: int, j: int| 0 <= i < j < r.len() implies #[trigger] r[i].0
                != #[trigger] r[j].0 by {
                if j < r0.len() {
                    assert(r[i] == r0[i] && r[j] == r0[j]);
                } else {
                    assert(r[i] == r0[i]);
                    let k = choose|k: int| 0 <= k < t0.len() && t0[k] == r0[i];
                    assert(t[k] == t0[k]);
                    assert(t[t.len() - 1] == r[j]);
                }
            }
        }
    }
}

proof fn lemma_band_props(t: Seq<(Seq<char>, nat, Seq<char>)>, hi: int, lo: int)
    requires
        0 <= lo,
        distinct_codes(t),
    ensures
        distinct_codes(band(t, hi, lo)),
        forall|i: int|
            0 <= i < band(t, hi, lo).len() ==> lo < (#[trigger] band(t, hi, lo)[i]).1 <= hi
                && t.contains(band(t, hi, lo)[i]),
        forall|i: int, j: int|
            0 <= i < j < band(t, hi, lo).len() ==> #[trigger] band(t, hi, lo)[i].1
                >= #[trigger] band(t, hi, lo)[j].1,
        forall|k: int|
            0 <= k < t.len() && lo < (#[trigger] t[k]).1 <= hi ==> band(t, hi, lo).contains(t[k]),
    decreases hi - lo,
{
    if hi > lo {
        lemma_band_props(t, hi - 1, lo);
        lemma_entries_with_from(t, hi as nat);
        let a = entries_with(t, hi as nat);
        let b = band(t, hi - 1, lo);
        let r = band(t, hi, lo);
        assert(r == a + b);
        assert forall|i: int| 0 <= i < r.len() implies lo < (#[trigger] r[i]).1 <= hi && t.contains(
            r[i],
        ) by {
            if i < a.len() {
                assert(r[i] == a[i]);
            } else {
                assert(r[i] == b[i - a.len()]);
            }
        }
        assert forall|i: int, j: int| 0 <= i < j < r.len() implies #[trigger] r[i].1
            >= #[trigger] r[j].1 by {
            if j < a.len() {
                assert(r[i] == a[i] && r[j] == a[j]);
            } else if i < a.len() {
                assert(r[i] == a[i] && r[j] == b[j - a.len()]);
            } else {
                assert(r[i] == b[i - a.len()] && r[j] == b[j - a.len()]);
            }
        }
        assert forall|i: int, j: int| 0 <= i < j < r.len() implies #[trigger] r[i].0
            != #[trigger] r[j].0 by {
            if j < a.len() {
                assert(r[i] == a[i] && r[j] == a[j]);
            } else if i < a.len() {
                assert(r[i] == a[i] && r[j] == b[j - a.len()]);
                let k1 = choose|k: int| 0 <= k < t.len() && t[k] == a[i];
                let k2 = choose|k: int| 0 <= k < t.len() && t[k] == b[j - a.len()];
                if k1 != k2 {
                    if k1 < k2 {
                        assert(t[k1].0 != t[k2].0);
                    } else {
                        assert(t[k2].0 != t[k1].0);
                    }
                }
            } else {
                assert(r[i] == b[i - a.len()] && r[j] == b[j - a.len()]);
            }
        }
        assert forall|k: int| 0 <= k < t.len() && lo < (#[trigger] t[k]).1 <= hi implies r.contains(
            t[k],
        ) by {
            if t[k].1 == hi {
                let i = choose|i: int| 0 <= i < a.len() && a[i] == t[k];
                assert(r[i] == t[k]);
            } else {
                let i = choose|i: int| 0 <= i < b.len() && b[i] == t[k];
                assert(r[i + a.len()] == t[k]);
            }
        }
    }
}

proof fn lemma_max_count(t: Seq<(Seq<char>, nat, Seq<char>)>)
    ensures
        forall|k: int| 0 <= k < t.len() ==> (#[trigger] t[k]).1 <= max_count(t),
    decreases t.len(),
{
    if t.len() > 0 {
        lemma_max_count(t.drop_last());
        assert forall|k: int| 0 <= k < t.len() implies (#[trigger] t[k]).1 <= max_count(t) by {
            if k < t.len() - 1 {
                assert(t[k] == t.drop_last()[k]);
            }
        }
    }
}

/// The coverage table of a `path` run lists every field code that its
/// records list, once, with the number of times they list it, highest
/// coverage first.
pub proof fn lemma_path_coverage_table(content: Seq<char>)
    ensures
        forall|i: int, j: int|
            0 <= i < j < path_coverage(content).len() ==> #[trigger] path_coverage(content)[i].1
                >= #[trigger] path_coverage(content)[j].1,
        distinct_codes(path_coverage(content)),
        forall|i: int|
            0 <= i < path_coverage(content).len() ==> (#[trigger] path_coverage(content)[i]).1
                == occ_count(occurrences(records(data_rows(content))), path_coverage(content)[i].0)
                && path_coverage(content)[i].1 >= 1,
        forall|f: Seq<char>|
            occ_count(occurrences(records(data_rows(content))), f) > 0 ==> exists|i: int|
                0 <= i < path_coverage(content).len() && (#[trigger] path_coverage(content)[i]).0
                    == f,
{
    let occ = occurrences(records(data_rows(content)));
    let t = tally(occ);
    lemma_tally_exact(occ);
    lemma_tally_counts(occ);
    lemma_max_count(t);
    lemma_band_props(t, max_count(t) as int, 0);
    let pc = path_coverage(content);
    assert(pc == band(t, max_count(t) as int, 0));
    assert forall|i: int| 0 <= i < pc.len() implies (#[trigger] pc[i]).1 == occ_count(occ, pc[i].0)
        && pc[i].1 >= 1 by {
        let k = choose|k: int| 0 <= k < t.len() && t[k] == pc[i];
        assert(t[k].1 == occ_count(occ, t[k].0));
    }
    assert forall|f: Seq<char>| occ_count(occ, f) > 0 implies exists|i: int|
        0 <= i < pc.len() && (#[trigger] pc[i]).0 == f by {
        let k = choose|k: int| 0 <= k < t.len() && (#[trigger] t[k]).0 == f;
        assert(1 <= t[k].1 <= max_count(t));
        assert(pc.contains(t[k]));
        let i = choose|i: int| 0 <= i < pc.len() && pc[i] == t[k];
        assert(pc[i].0 == f);
    }
}

/// Dropping trailing parts keeps no more trimmed-nonempty parts.
proof fn lemma_nonempty_prefix(p: Seq<Seq<char>>, k: int)
    requires
        0 <= k <= p.len(),
    ensures
        nonempty_trimmed(p.take(k)).len() <= nonempty_trimmed(p).len(),
    decreases p.len() - k,
{
    if k < p.len() {
        lemma_nonempty_prefix(p, k + 1);
        assert(p.take(k + 1).drop_last() =~= p.take(k));
    } else {
        assert(p.take(k) =~= p);
    }
}

/// A prefix of the parts has no more characters than all of them.
proof fn lemma_total_len_prefix(p: Seq<Seq<char>>, k: int)
    requires
        0 <= k <= p.len(),
    ensures
        total_len(p.take(k)) <= total_len(p),
    decreases p.len() - k,
{
    if k < p.len() {
        lemma_total_len_prefix(p, k + 1);
        assert(p.take(k + 1).drop_last() =~= p.take(k));
    } else {
        assert(p.take(k) =~= p);
    }
}

/// The parts that are trimmed-nonempty are no more than their total length.
proof fn lemma_nonempty_trimmed_len(parts: Seq<Seq<char>>)
    ensures
        nonempty_trimmed(parts).len() <= total_len(parts),
    decreases parts.len(),
{
    if parts.len() > 0 {
        lemma_nonempty_trimmed_len(parts.drop_last());
        lemma_trim_shorter(parts.last());
    }
}

/// A record lists no more field codes than it has characters.
proof fn lemma_record_fumens_len(row: Seq<char>)
    requires
        is_record(row),
    ensures
        record_fumens(row).len() <= row.len(),
{
    lemma_split_lengths(row, ',');
    let c4 = columns(row)[4];
    lemma_trim_shorter(c4);
    lemma_split_lengths(trim(c4), ';');
    lemma_nonempty_trimmed_len(split_on(trim(c4), ';'));
}

/// The index of the entry for field code `f` in the parallel tables, or the table length.
fn find_fumen(fumens: &Vec<Vec<char>>, f: &Vec<char>) -> (r: usize)
    ensures
        r <= fumens@.len(),
        r < fumens@.len() ==> fumens@[r as int]@ == f@,
        forall|j: int| 0 <= j < r ==> fumens@[j]@ != f@,
{
    let mut i: usize = 0;
    while i < fumens.len()
        invariant
            i <= fumens@.len(),
            forall|j: int| 0 <= j < i ==> fumens@[j]@ != f@,
        decreases fumens@.len() - i,
    {
        if same_chars(fumens[i].as_slice(), f.as_slice()) {
            return i;
        }
        i += 1;
    }
    i
}

/// The view of the parallel tables as entries.
pub open spec fn table_view(fumens: Seq<Vec<char>>, counts: Seq<u32>, useds: Seq<Vec<char>>) -> Seq<(Seq<char>, nat, Seq<char>)> {
    Seq::new(fumens.len(), |i: int| (fumens[i]@, counts[i] as nat, useds[i]@))
}

/// Counts the field codes of a `path` results table: for each code, how many
/// times the records list it and the pieces used; by descending coverage, with
/// the number of records.
pub fn path_coverage_from_csv(content: &str) -> (res: (Vec<PathResultEntry>, u32))
    requires
        content@.len() < u32::MAX,
    ensures
        res.1 == records(data_rows(content@)).len(),
        res.0@.len() == path_coverage(content@).len(),
        forall|i: int| 0 <= i < res.0@.len() ==> path_entry_is(#[trigger] res.0@[i], path_coverage(content@)[i]),
{
    let chars = chars_of(content);
    let lines = split_chars(chars.as_slice(), '\n');
    proof {
        lemma_split_lengths(content@, '\n');
    }
    let ghost rows = data_rows(content@);
    let ghost all_lines = split_on(content@, '\n');
    let mut fumens: Vec<Vec<char>> = Vec::new();
    let mut counts: Vec<u32> = Vec::new();
    let mut useds: Vec<Vec<char>> = Vec::new();
    let mut total: u32 = 0;
    let ghost mut occ: Seq<(Seq<char>, Seq<char>)> = Seq::empty();
    let mut r: usize = 1;
    assert(all_lines.take(1).drop_last() =~= all_lines.take(0));
    while r < lines.len()
        invariant
            1 <= r <= lines@.len(),
            lines@.len() == all_lines.len(),
            all_lines == split_on(content@, '\n'),
            total_len(all_lines) + all_lines.len() == content@.len() + 1,
            content@.len() < u32::MAX,
            forall|i: int| 0 <= i < lines@.len() ==> (#[trigger] lines@[i])@ == all_lines[i],
            rows == data_rows(content@),
            total == records(rows.take(r - 1)).len(),
            total <= r - 1,
            occ == occurrences(records(rows.take(r - 1))),
            occ.len() <= total_len(all_lines.take(r as int)),
            fumens@.len() == counts@.len(),
            useds@.len() == counts@.len(),
            table_view(fumens@, counts@, useds@) == tally(occ),
        decreases lines@.len() - r,
    {
        let row = &lines[r];
        assert(row@ == rows[r - 1]);
        assert(rows.take(r as int).drop_last() =~= rows.take(r - 1));
        assert(rows.take(r as int).last() == rows[r - 1]);
        assert(all_lines.take(r + 1).drop_last() =~= all_lines.take(r as int));
        assert(total_len(all_lines.take(r + 1)) == total_len(all_lines.take(r as int)) + row@.len());
        let cols = split_chars(row.as_slice(), ',');
        if cols.len() >= 5 {
            total += 1;
            let used = trimmed(cols[2].as_slice());
            let fs = trimmed(cols[4].as_slice());
            let parts = split_chars(fs.as_slice(), ';');
            let ghost row_parts = split_on(fs@, ';');
            let ghost occ0 = occ;
            proof {
                lemma_record_fumens_len(row@);
                lemma_total_len_prefix(all_lines, r + 1);
            }
            let mut k: usize = 0;
            while k < parts.len()
                invariant
                    k <= parts@.len(),
                    parts@.len() == row_parts.len(),
                    forall|i: int| 0 <= i < parts@.len() ==> (#[trigger] parts@[i])@ == row_parts[i],
                    row_parts == split_on(fs@, ';'),
                    fs@ == trim(columns(row@)[4]),
                    used@ == record_used(row@),
                    record_fumens(row@).len() <= row@.len(),
                    occ == occ0 + nonempty_trimmed(row_parts.take(k as int)).map_values(
                        |f: Seq<char>| (f, used@),
                    ),
                    occ0.len() <= total_len(all_lines.take(r as int)),
                    total_len(all_lines.take(r as int)) + row@.len() < u32::MAX,
                    nonempty_trimmed(row_parts.take(k as int)).len() <= record_fumens(row@).len(),
                    fumens@.len() == counts@.len(),
                    useds@.len() == counts@.len(),
                    table_view(fumens@, counts@, useds@) == tally(occ),
                decreases parts@.len() - k,
            {
                let f = trimmed(parts[k].as_slice());
                let ghost before = occ;
                proof {
                    lemma_nonempty_prefix(row_parts, k + 1);
                }
                assert(row_parts.take(k + 1).drop_last() =~= row_parts.take(k as int));
                assert(row_parts.take(k + 1).last() == row_parts[k as int]);
                if f.len() > 0 {
                    proof {
                        occ = occ.push((f@, used@));
                        assert(occ == occ0 + nonempty_trimmed(row_parts.take(k + 1)).map_values(
                            |f: Seq<char>| (f, used@),
                        ));
                        assert(occ.drop_last() == before);
                        lemma_tally_counts(before);
                        lemma_entry_index(tally(before));
                    }
                    let i = find_fumen(&fumens, &f);
                    proof {
                        let t = tally(before);
                        if i < fumens@.len() {
                            assert(t[i as int].0 == f@);
                            assert(entry_index(t, f@) >= 0) by {
                                if entry_index(t, f@) < 0 {
                                    assert(t[i as int].0 != f@);
                                }
                            }
                        }
                        if entry_index(t, f@) >= 0 {
                            let e = entry_index(t, f@);
                            assert(t[e].0 == f@);
                            assert(fumens@[e]@ == f@);
                            assert(i as int == e) by {
                                if (i as int) < e {
                                    assert(fumens@[i as int]@ == f@);
                                    assert(t[i as int].0 == f@);
                                } else if (i as int) > e {
                                    assert(fumens@[e]@ != f@);
                                }
                            }
                        }
                    }
                    if i < fumens.len() {
                        let c = counts[i];
                        assert(c <= before.len());
                        counts.set(i, c + 1);
                        if used.len() > 0 {
                            let u = slice_range(used.as_slice(), 0, used.len());
                            assert(u@ =~= used@);
                            useds.set(i, u);
                        }
                    } else {
                        fumens.push(f);
                        counts.push(1);
                        let u = slice_range(used.as_slice(), 0, used.len());
                        assert(u@ =~= used@);
                        useds.push(u);
                    }
                    assert(table_view(fumens@, counts@, useds@) =~= tally(occ));
                } else {
                    assert(occ == occ0 + nonempty_trimmed(row_parts.take(k + 1)).map_values(
                        |f: Seq<char>| (f, used@),
                    ));
                }
                k += 1;
            }
            assert(row_parts.take(row_parts.len() as int) =~= row_parts);
            proof {
                assert(records(rows.take(r as int)) == records(rows.take(r - 1)).push(rows[r - 1]));
                assert(records(rows.take(r as int)).drop_last() =~= records(rows.take(r - 1)));
            }
        } else {
            assert(records(rows.take(r as int)) == records(rows.take(r - 1)));
        }
        r += 1;
    }
    assert(rows.take(lines@.len() - 1) =~= rows);
    assert(all_lines.take(lines@.len() as int) =~= all_lines);
    proof {
        lemma_tally_counts(occ);
    }
    let ghost t = tally(occ);
    // highest count
    let mut top: u32 = 0;
    let mut i: usize = 0;
    while i < counts.len()
        invariant
            i <= counts@.len(),
            fumens@.len() == counts@.len(),
            useds@.len() == counts@.len(),
            t == table_view(fumens@, counts@, useds@),
            top as nat == max_count(t.take(i as int)),
        decreases counts@.len() - i,
    {
        assert(t.take(i + 1).drop_last() =~= t.take(i as int));
        if counts[i] > top {
            top = counts[i];
        }
        i += 1;
    }
    assert(t.take(t.len() as int) =~= t);
    let mut out: Vec<PathResultEntry> = Vec::new();
    let mut c: u32 = top;
    while c > 0
        invariant
            c <= top,
            fumens@.len() == counts@.len(),
            useds@.len() == counts@.len(),
            t == table_view(fumens@, counts@, useds@),
            top as nat == max_count(t),
            out@.len() == band(t, top as int, c as int).len(),
            forall|j: int| 0 <= j < out@.len() ==> path_entry_is(#[trigger] out@[j], band(t, top as int, c as int)[j]),
        decreases c,
    {
        let ghost base = out@;
        let mut i: usize = 0;
        while i < counts.len()
            invariant
                i <= counts@.len(),
                0 < c <= top,
                fumens@.len() == counts@.len(),
                useds@.len() == counts@.len(),
                t == table_view(fumens@, counts@, useds@),
                out@.len() == base.len() + entries_with(t.take(i as int), c as nat).len(),
                forall|j: int| 0 <= j < base.len() ==> out@[j] == base[j],
                forall|j: int| 0 <= j < entries_with(t.take(i as int), c as nat).len() ==> path_entry_is(
                    #[trigger] out@[base.len() + j],
                    entries_with(t.take(i as int), c as nat)[j],
                ),
            decreases counts@.len() - i,
        {
            assert(t.take(i + 1).drop_last() =~= t.take(i as int));
            if counts[i] == c {
                let e = PathResultEntry {
                    fumen: string_of(fumens[i].as_slice()),
                    coverage: c,
                    used: string_of(useds[i].as_slice()),
                };
                out.push(e);
            }
            i += 1;
        }
        assert(t.take(t.len() as int) =~= t);
        proof {
            lemma_band_step(t, top as int, c as int);
        }
        c -= 1;
        assert forall|j: int| 0 <= j < out@.len() implies path_entry_is(#[trigger] out@[j], band(t, top as int, c as int)[j]) by {
            if j < base.len() {
                assert(out@[j] == base[j]);
            } else {
                assert(out@[base.len() + (j - base.len())] == out@[j]);
            }
        }
    }
    (out, total)
}

/// The patterns of a `path` results table: for each record whose field-code
/// column is not empty once trimmed, the field codes it lists.
pub open spec fn pattern_lists(recs: Seq<Seq<char>>) -> Seq<Seq<Seq<char>>>
    decreases recs.len(),
{
    if recs.len() == 0 {
        Seq::empty()
    } else if trim(columns(recs.last())[4]).len() > 0 {
        pattern_lists(recs.drop_last()).push(record_fumens(recs.last()))
    } else {
        pattern_lists(recs.drop_last())
    }
}

/// How many of the first n patterns are still uncovered and list `f`.
pub open spec fn gain_upto(pats: Seq<Seq<Seq<char>>>, open: Seq<bool>, f: Seq<char>, n: int) -> nat
    decreases n,
{
    if n <= 0 {
        0
    } else {
        gain_upto(pats, open, f, n - 1) + if open[n - 1] && pats[n - 1].contains(f) {
            1nat
        } else {
            0nat
        }
    }
}

/// How many uncovered patterns list `f`.
pub open spec fn gain(pats: Seq<Seq<Seq<char>>>, open: Seq<bool>, f: Seq<char>) -> nat {
    gain_upto(pats, open, f, pats.len() as int)
}

/// Which patterns are still uncovered after choosing the field codes of
/// `results` at the indices `picks`, in turn.
pub open spec fn open_after(
    pats: Seq<Seq<Seq<char>>>,
    results: Seq<PathResultEntry>,
    picks: Seq<int>,
) -> Seq<bool>
    decreases picks.len(),
{
    if picks.len() == 0 {
        Seq::new(pats.len(), |p: int| true)
    } else {
        let before = open_after(pats, results, picks.drop_last());
        let f = results[picks.last()].fumen@;
        Seq::new(pats.len(), |p: int| before[p] && !pats[p].contains(f))
    }
}

/// The field codes chosen at the indices `picks`.
pub open spec fn chosen(results: Seq<PathResultEntry>, picks: Seq<int>) -> Seq<Seq<char>> {
    picks.map_values(|i: int| results[i].fumen@)
}

/// Entry `i` is the best choice: its code is not chosen yet, it covers some
/// uncovered pattern, no earlier unchosen entry covers as many, and no later
/// one covers more.
pub open spec fn best_pick(
    pats: Seq<Seq<Seq<char>>>,
    results: Seq<PathResultEntry>,
    picks: Seq<int>,
    i: int,
) -> bool {
    let open = open_after(pats, results, picks);
    let sel = chosen(results, picks);
    &&& 0 <= i < results.len()
    &&& !sel.contains(results[i].fumen@)
    &&& gain(pats, open, results[i].fumen@) > 0
    &&& forall|j: int|
        0 <= j < results.len() && !sel.contains(results[j].fumen@) ==> (j < i ==> #[trigger] gain(
            pats,
            open,
            results[j].fumen@,
        ) < gain(pats, open, results[i].fumen@)) && (j > i ==> gain(
            pats,
            open,
            results[j].fumen@,
        ) <= gain(pats, open, results[i].fumen@))
}

/// The greedy cover stops: no pattern is uncovered, or no unchosen code covers any.
pub open spec fn cover_done(
    pats: Seq<Seq<Seq<char>>>,
    results: Seq<PathResultEntry>,
    picks: Seq<int>,
) -> bool {
    let open = open_after(pats, results, picks);
    let sel = chosen(results, picks);
    (forall|p: int| 0 <= p < pats.len() ==> !open[p]) || (forall|j: int|
        0 <= j < results.len() && !sel.contains(results[j].fumen@) ==> #[trigger] gain(
            pats,
            open,
            results[j].fumen@,
        ) == 0)
}

/// The k-th choice is made before the cover stops, and is the best one.
pub open spec fn greedy_step(
    pats: Seq<Seq<Seq<char>>>,
    results: Seq<PathResultEntry>,
    picks: Seq<int>,
    k: int,
) -> bool {
    !cover_done(pats, results, picks.take(k)) && best_pick(pats, results, picks.take(k), picks[k])
}

/// `picks` are the choices of the greedy cover, to its end.
pub open spec fn greedy_cover(
    pats: Seq<Seq<Seq<char>>>,
    results: Seq<PathResultEntry>,
    picks: Seq<int>,
) -> bool {
    &&& forall|k: int| 0 <= k < picks.len() ==> #[trigger] greedy_step(pats, results, picks, k)
    &&& cover_done(pats, results, picks)
}

/// The index of the first entry with field code `f`.
pub open spec fn first_with(results: Seq<PathResultEntry>, f: Seq<char>) -> int {
    choose|i: int|
        0 <= i < results.len() && results[i].fumen@ == f && forall|j: int|
            0 <= j < i ==> results[j].fumen@ != f
}

/// The entries for a small set of field codes that together cover every
/// pattern that any of them covers: the codes of `results` chosen greedily,
/// each time the one covering the most uncovered patterns (the first of
/// those on a tie); each reported by its first entry in `results`.
pub open spec fn strict_minimal_of(
    results: Seq<PathResultEntry>,
    content: Seq<char>,
    res: Seq<PathResultEntry>,
) -> bool {
    let pats = pattern_lists(records(data_rows(content)));
    exists|picks: Seq<int>|
        #[trigger] greedy_cover(pats, results, picks) && res.len() == picks.len() && forall|
            k: int,
        | 0 <= k < res.len() ==> res[k] == results[first_with(results, results[picks[k]].fumen@)]
}

/// The number of set entries.
pub open spec fn count_true(v: Seq<bool>) -> nat
    decreases v.len(),
{
    if v.len() == 0 {
        0
    } else {
        count_true(v.drop_last()) + if v.last() {
            1nat
        } else {
            0nat
        }
    }
}

proof fn lemma_count_clear(v: Seq<bool>, i: int)
    requires
        0 <= i < v.len(),
        v[i],
    ensures
        count_true(v.update(i, false)) + 1 == count_true(v),
    decreases v.len(),
{
    if i == v.len() - 1 {
        assert(v.update(i, false).drop_last() =~= v.drop_last());
    } else {
        assert(v.update(i, false).drop_last() =~= v.drop_last().update(i, false));
        lemma_count_clear(v.drop_last(), i);
    }
}

proof fn lemma_count_zero(v: Seq<bool>)
    requires
        count_true(v) == 0,
    ensures
        forall|p: int| 0 <= p < v.len() ==> !v[p],
    decreases v.len(),
{
    if v.len() > 0 {
        lemma_count_zero(v.drop_last());
        assert forall|p: int| 0 <= p < v.len() implies !v[p] by {
            if p < v.len() - 1 {
                assert(v[p] == v.drop_last()[p]);
            }
        }
    }
}

proof fn lemma_count_all(n: nat)
    ensures
        count_true(Seq::new(n, |p: int| true)) == n,
    decreases n,
{
    if n > 0 {
        lemma_count_all((n - 1) as nat);
        assert(Seq::new(n, |p: int| true).drop_last() =~= Seq::new((n - 1) as nat, |p: int| true));
    }
}

/// The field codes listed in a field-code column: split at `;`, trimmed, empty ones dropped.
fn listed_codes(fs: &[char]) -> (codes: Vec<Vec<char>>)
    ensures
        codes@.len() == nonempty_trimmed(split_on(fs@, ';')).len(),
        forall|i: int|
            0 <= i < codes@.len() ==> (#[trigger] codes@[i])@ == nonempty_trimmed(
                split_on(fs@, ';'),
            )[i],
{
    let parts = split_chars(fs, ';');
    let ghost ps = split_on(fs@, ';');
    let mut codes: Vec<Vec<char>> = Vec::new();
    let mut k: usize = 0;
    while k < parts.len()
        invariant
            k <= parts@.len(),
            parts@.len() == ps.len(),
            forall|i: int| 0 <= i < parts@.len() ==> (#[trigger] parts@[i])@ == ps[i],
            codes@.len() == nonempty_trimmed(ps.take(k as int)).len(),
            forall|i: int|
                0 <= i < codes@.len() ==> (#[trigger] codes@[i])@ == nonempty_trimmed(
                    ps.take(k as int),
                )[i],
        decreases parts@.len() - k,
    {
        assert(ps.take(k + 1).drop_last() =~= ps.take(k as int));
        let f = trimmed(parts[k].as_slice());
        if f.len() > 0 {
            codes.push(f);
        }
        k += 1;
    }
    assert(ps.take(ps.len() as int) =~= ps);
    codes
}

/// Whether the list holds the code.
fn lists_code(list: &Vec<Vec<char>>, f: &[char]) -> (r: bool)
    ensures
        r == list@.map_values(|c: Vec<char>| c@).contains(f@),
{
    let ghost lv = list@.map_values(|c: Vec<char>| c@);
    let mut i: usize = 0;
    while i < list.len()
        invariant
            i <= list@.len(),
            lv == list@.map_values(|c: Vec<char>| c@),
            forall|j: int| 0 <= j < i ==> lv[j] != f@,
        decreases list@.len() - i,
    {
        if same_chars(list[i].as_slice(), f) {
            assert(lv[i as int] == f@);
            return true;
        }
        i += 1;
    }
    false
}

/// Reads the patterns of a `path` results table.
fn read_patterns(content: &str) -> (pats: Vec<Vec<Vec<char>>>)
    ensures
        pats@.len() == pattern_lists(records(data_rows(content@))).len(),
        forall|p: int|
            0 <= p < pats@.len() ==> (#[trigger] pats@[p])@.map_values(|c: Vec<char>| c@)
                == pattern_lists(records(data_rows(content@)))[p],
{
    let chars = chars_of(content);
    let lines = split_chars(chars.as_slice(), '\n');
    proof {
        lemma_split_lengths(content@, '\n');
    }
    let ghost rows = data_rows(content@);
    let mut pats: Vec<Vec<Vec<char>>> = Vec::new();
    let mut r: usize = 1;
    while r < lines.len()
        invariant
            1 <= r <= lines@.len(),
            lines@.len() == split_on(content@, '\n').len(),
            forall|i: int| 0 <= i < lines@.len() ==> (#[trigger] lines@[i])@ == split_on(content@, '\n')[i],
            rows == data_rows(content@),
            pats@.len() == pattern_lists(records(rows.take(r - 1))).len(),
            forall|p: int|
                0 <= p < pats@.len() ==> (#[trigger] pats@[p])@.map_values(|c: Vec<char>| c@)
                    == pattern_lists(records(rows.take(r - 1)))[p],
        decreases lines@.len() - r,
    {
        let row = &lines[r];
        assert(row@ == rows[r - 1]);
        assert(rows.take(r as int).drop_last() =~= rows.take(r - 1));
        let cols = split_chars(row.as_slice(), ',');
        if cols.len() >= 5 {
            assert(records(rows.take(r as int)) == records(rows.take(r - 1)).push(rows[r - 1]));
            assert(records(rows.take(r as int)).drop_last() =~= records(rows.take(r - 1)));
            let fs = trimmed(cols[4].as_slice());
            if fs.len() > 0 {
                let codes = listed_codes(fs.as_slice());
                assert(codes@.map_values(|c: Vec<char>| c@) =~= record_fumens(row@));
                pats.push(codes);
            }
        } else {
            assert(records(rows.take(r as int)) == records(rows.take(r - 1)));
        }
        r += 1;
    }
    assert(rows.take(lines@.len() - 1) =~= rows);
    pats
}

/// Chooses a small set of field codes that together cover the patterns of a
/// `path` results table, greedily (see [`strict_minimal_of`]).
pub fn strict_minimal_from_csv(results: &[PathResultEntry], content: &str) -> (res: Vec<PathResultEntry>)
    ensures
        strict_minimal_of(results@, content@, res@),
{
    let pats = read_patterns(content);
    let ghost pv = pattern_lists(records(data_rows(content@)));
    let ghost rs = results@;
    let np = pats.len();
    let nr = results.len();
    // the field codes of the entries
    let mut codes: Vec<Vec<char>> = Vec::new();
    let mut i: usize = 0;
    while i < nr
        invariant
            i <= nr,
            nr == rs.len(),
            rs == results@,
            codes@.len() == i,
            forall|j: int| 0 <= j < i ==> (#[trigger] codes@[j])@ == rs[j].fumen@,
        decreases nr - i,
    {
        codes.push(chars_of(results[i].fumen.as_str()));
        i += 1;
    }
    // which patterns each entry's code covers
    let mut covers: Vec<Vec<bool>> = Vec::new();
    let mut i: usize = 0;
    while i < nr
        invariant
            i <= nr,
            nr == rs.len(),
            np == pv.len(),
            pats@.len() == np,
            forall|p: int| 0 <= p < np ==> (#[trigger] pats@[p])@.map_values(|c: Vec<char>| c@) == pv[p],
            codes@.len() == nr,
            forall|j: int| 0 <= j < nr ==> (#[trigger] codes@[j])@ == rs[j].fumen@,
            covers@.len() == i,
            forall|j: int|
                0 <= j < i ==> (#[trigger] covers@[j])@.len() == np && forall|p: int|
                    0 <= p < np ==> covers@[j]@[p] == pv[p].contains(rs[j].fumen@),
        decreases nr - i,
    {
        let mut row: Vec<bool> = Vec::new();
        let mut p: usize = 0;
        while p < np
            invariant
                p <= np,
                i < nr,
                np == pv.len(),
                pats@.len() == np,
                forall|q: int| 0 <= q < np ==> (#[trigger] pats@[q])@.map_values(|c: Vec<char>| c@) == pv[q],
                codes@.len() == nr,
                codes@[i as int]@ == rs[i as int].fumen@,
                row@.len() == p,
                forall|q: int| 0 <= q < p ==> row@[q] == pv[q].contains(rs[i as int].fumen@),
            decreases np - p,
        {
            row.push(lists_code(&pats[p], codes[i].as_slice()));
            p += 1;
        }
        covers.push(row);
        i += 1;
    }
    // greedy choice
    let mut open: Vec<bool> = Vec::new();
    let mut p: usize = 0;
    while p < np
        invariant
            p <= np,
            open@.len() == p,
            forall|q: int| 0 <= q < p ==> open@[q],
        decreases np - p,
    {
        open.push(true);
        p += 1;
    }
    let ghost mut picks: Seq<int> = Seq::empty();
    assert(open@ =~= open_after(pv, rs, picks));
    proof {
        lemma_count_all(np as nat);
    }
    let mut open_count: usize = np;
    let mut pick_list: Vec<usize> = Vec::new();
    let mut done = false;
    while !done && open_count > 0
        invariant
            nr == rs.len(),
            rs == results@,
            np == pv.len(),
            codes@.len() == nr,
            forall|j: int| 0 <= j < nr ==> (#[trigger] codes@[j])@ == rs[j].fumen@,
            covers@.len() == nr,
            forall|j: int|
                0 <= j < nr ==> (#[trigger] covers@[j])@.len() == np && forall|p: int|
                    0 <= p < np ==> covers@[j]@[p] == pv[p].contains(rs[j].fumen@),
            open@ == open_after(pv, rs, picks),
            open@.len() == np,
            open_count == count_true(open@),
            pick_list@.len() == picks.len(),
            forall|k: int| 0 <= k < picks.len() ==> pick_list@[k] as int == picks[k],
            forall|k: int| 0 <= k < picks.len() ==> 0 <= #[trigger] picks[k] < nr,
            forall|k: int| 0 <= k < picks.len() ==> #[trigger] greedy_step(pv, rs, picks, k),
            done ==> cover_done(pv, rs, picks),
        decreases open_count + if done { 0int } else { 1int },
    {
        let ghost sel = chosen(rs, picks);
        let ghost openv = open@;
        let mut best: usize = nr;
        let mut best_count: usize = 0;
        let mut i: usize = 0;
        while i < nr
            invariant
                i <= nr,
                nr == rs.len(),
                np == pv.len(),
                openv == open@,
                openv == open_after(pv, rs, picks),
                openv.len() == np,
                sel == chosen(rs, picks),
                pick_list@.len() == picks.len(),
                forall|k: int| 0 <= k < picks.len() ==> pick_list@[k] as int == picks[k],
                forall|k: int| 0 <= k < picks.len() ==> 0 <= #[trigger] picks[k] < nr,
                codes@.len() == nr,
                forall|j: int| 0 <= j < nr ==> (#[trigger] codes@[j])@ == rs[j].fumen@,
                covers@.len() == nr,
                forall|j: int|
                    0 <= j < nr ==> (#[trigger] covers@[j])@.len() == np && forall|p: int|
                        0 <= p < np ==> covers@[j]@[p] == pv[p].contains(rs[j].fumen@),
                best_count <= np,
                best <= nr,
                forall|k: int| 0 <= k < picks.len() ==> #[trigger] greedy_step(pv, rs, picks, k),
                best_count == 0 <==> best == nr,
                best < nr ==> best < i && !sel.contains(rs[best as int].fumen@) && gain(pv, openv, rs[best as int].fumen@) == best_count,
                forall|j: int|
                    0 <= j < i && !sel.contains(rs[j].fumen@) ==> (j < best && best < nr ==> #[trigger] gain(
                        pv,
                        openv,
                        rs[j].fumen@,
                    ) < best_count) && gain(pv, openv, rs[j].fumen@) <= best_count,
            decreases nr - i,
        {
            let taken = code_taken(&pick_list, &codes, i, Ghost(rs), Ghost(picks));
            if !taken {
                let g = open_gain(&open, &covers[i], Ghost(pv), Ghost(rs[i as int].fumen@));
                assert(g == gain(pv, openv, rs[i as int].fumen@));
                let ghost old_best = best;
                let ghost old_count = best_count;
                if g > best_count {
                    best = i;
                    best_count = g;
                }
                assert forall|j: int|
                    0 <= j < i + 1 && !sel.contains(rs[j].fumen@) implies (j < best && best < nr ==> #[trigger] gain(
                        pv,
                        openv,
                        rs[j].fumen@,
                    ) < best_count) && gain(pv, openv, rs[j].fumen@) <= best_count by {
                    if j < i {
                        assert(gain(pv, openv, rs[j].fumen@) <= old_count);
                        if j < old_best && old_best < nr {
                            assert(gain(pv, openv, rs[j].fumen@) < old_count);
                        }
                    }
                }
            }
            i += 1;
        }
        if best_count == 0 {
            done = true;
            proof {
                assert forall|j: int|
                    0 <= j < rs.len() && !sel.contains(rs[j].fumen@) implies #[trigger] gain(
                    pv,
                    openv,
                    rs[j].fumen@,
                ) == 0 by {}
                assert(cover_done(pv, rs, picks));
                assert(forall|k: int| 0 <= k < picks.len() ==> #[trigger] greedy_step(pv, rs, picks, k));
            }
        } else {
            let ghost before_picks = picks;
            let f_open = open_count;
            let mut flipped: usize = 0;
            let mut p: usize = 0;
            while p < np
                invariant
                    p <= np,
                    best < nr,
                    openv.len() == np,
                    np == pv.len(),
                    open@.len() == np,
                    covers@.len() == nr,
                    covers@[best as int]@.len() == np,
                    forall|q: int| 0 <= q < np ==> covers@[best as int]@[q] == pv[q].contains(rs[best as int].fumen@),
                    open@ == partly_closed(pv, openv, rs[best as int].fumen@, p as int),
                    flipped == gain_upto(pv, openv, rs[best as int].fumen@, p as int),
                    flipped <= p,
                    f_open == count_true(openv),
                    count_true(open@) + flipped == f_open,
                decreases np - p,
            {
                let ghost o = open@;
                let ghost fb = rs[best as int].fumen@;
                assert(covers@[best as int]@[p as int] == pv[p as int].contains(fb));
                let cur = open[p];
                let cov = covers[best][p];
                if cur && cov {
                    proof {
                        lemma_count_clear(open@, p as int);
                    }
                    open.set(p, false);
                    flipped += 1;
                }
                assert(open@ =~= partly_closed(pv, openv, fb, p + 1));
                p += 1;
            }
            open_count = open_count - flipped;
            pick_list.push(best);
            proof {
                picks = picks.push(best as int);
                assert(picks.drop_last() =~= before_picks);
                assert(picks.take(before_picks.len() as int) =~= before_picks);
                assert(picks.last() == best as int);
                assert(open_after(pv, rs, picks.drop_last()) == openv);
                assert(open@ =~= open_after(pv, rs, picks));
                assert(!cover_done(pv, rs, before_picks)) by {
                    assert(gain(pv, openv, rs[best as int].fumen@) > 0);
                    if forall|q: int| 0 <= q < pv.len() ==> !openv[q] {
                        lemma_gain_closed(pv, openv, rs[best as int].fumen@, np as int);
                    }
                }
                assert(best_pick(pv, rs, before_picks, best as int));
                assert forall|k: int|
                    0 <= k < picks.len() implies #[trigger] greedy_step(pv, rs, picks, k) by {
                    if k < before_picks.len() {
                        assert(picks.take(k) =~= before_picks.take(k));
                        assert(picks[k] == before_picks[k]);
                        assert(greedy_step(pv, rs, before_picks, k));
                    } else {
                        assert(picks.take(k) =~= before_picks);
                        assert(picks[k] == best as int);
                    }
                }
            }
        }
    }
    proof {
        if !done {
            lemma_count_zero(open@);
        }
        assert(cover_done(pv, rs, picks));
        assert(greedy_cover(pv, rs, picks));
    }
    // report each chosen code by its first entry
    let mut out: Vec<PathResultEntry> = Vec::new();
    let mut k: usize = 0;
    while k < pick_list.len()
        invariant
            k <= pick_list@.len(),
            pick_list@.len() == picks.len(),
            forall|q: int| 0 <= q < picks.len() ==> pick_list@[q] as int == picks[q],
            forall|q: int| 0 <= q < picks.len() ==> 0 <= #[trigger] picks[q] < nr,
            nr == rs.len(),
            rs == results@,
            codes@.len() == nr,
            forall|j: int| 0 <= j < nr ==> (#[trigger] codes@[j])@ == rs[j].fumen@,
            out@.len() == k,
            greedy_cover(pv, rs, picks),
            forall|q: int| 0 <= q < k ==> out@[q] == rs[first_with(rs, rs[picks[q]].fumen@)],
        decreases pick_list@.len() - k,
    {
        let pk = pick_list[k];
        assert(pk as int == picks[k as int]);
        let mut j: usize = 0;
        while j < pk && !same_chars(codes[j].as_slice(), codes[pk].as_slice())
            invariant
                j <= pk,
                pk < nr,
                codes@.len() == nr,
                forall|q: int| 0 <= q < nr ==> (#[trigger] codes@[q])@ == rs[q].fumen@,
                forall|q: int| 0 <= q < j ==> rs[q].fumen@ != rs[pk as int].fumen@,
            decreases pk - j,
        {
            j += 1;
        }
        proof {
            let w = first_with(rs, rs[pk as int].fumen@);
            assert(0 <= j < rs.len() && rs[j as int].fumen@ == rs[pk as int].fumen@);
            assert(0 <= w < rs.len() && rs[w].fumen@ == rs[pk as int].fumen@ && forall|q: int|
                0 <= q < w ==> rs[q].fumen@ != rs[pk as int].fumen@);
            assert(w == j) by {
                if w < j {
                } else if w > j {
                }
            }
        }
        out.push(results[j].clone());
        k += 1;
    }
    assert(greedy_cover(pv, rs, picks));
    out
}

/// Whether the code of entry `i` is among the chosen ones.
fn code_taken(
    pick_list: &Vec<usize>,
    codes: &Vec<Vec<char>>,
    i: usize,
    Ghost(rs): Ghost<Seq<PathResultEntry>>,
    Ghost(picks): Ghost<Seq<int>>,
) -> (taken: bool)
    requires
        pick_list@.len() == picks.len(),
        forall|q: int| 0 <= q < picks.len() ==> pick_list@[q] as int == picks[q],
        forall|q: int| 0 <= q < picks.len() ==> 0 <= #[trigger] picks[q] < rs.len(),
        i < rs.len(),
        codes@.len() == rs.len(),
        forall|j: int| 0 <= j < rs.len() ==> (#[trigger] codes@[j])@ == rs[j].fumen@,
    ensures
        taken == chosen(rs, picks).contains(rs[i as int].fumen@),
{
    let ghost sel = chosen(rs, picks);
    let mut taken = false;
    let mut k: usize = 0;
    while k < pick_list.len()
        invariant
            k <= pick_list@.len(),
            pick_list@.len() == picks.len(),
            forall|q: int| 0 <= q < picks.len() ==> pick_list@[q] as int == picks[q],
            forall|q: int| 0 <= q < picks.len() ==> 0 <= #[trigger] picks[q] < rs.len(),
            i < rs.len(),
            codes@.len() == rs.len(),
            forall|j: int| 0 <= j < rs.len() ==> (#[trigger] codes@[j])@ == rs[j].fumen@,
            sel == chosen(rs, picks),
            taken == exists|q: int| 0 <= q < k && sel[q] == rs[i as int].fumen@,
        decreases pick_list@.len() - k,
    {
        let pk = pick_list[k];
        assert(pk as int == picks[k as int]);
        assert(sel[k as int] == rs[pk as int].fumen@);
        if same_chars(codes[pk].as_slice(), codes[i].as_slice()) {
            taken = true;
        }
        k += 1;
    }
    taken
}

/// How many open patterns the row of cover marks hits.
fn open_gain(
    open: &Vec<bool>,
    row: &Vec<bool>,
    Ghost(pv): Ghost<Seq<Seq<Seq<char>>>>,
    Ghost(f): Ghost<Seq<char>>,
) -> (g: usize)
    requires
        open@.len() == pv.len(),
        row@.len() == pv.len(),
        forall|q: int| 0 <= q < pv.len() ==> row@[q] == pv[q].contains(f),
    ensures
        g == gain(pv, open@, f),
        g <= pv.len(),
{
    let mut g: usize = 0;
    let mut p: usize = 0;
    while p < open.len()
        invariant
            p <= open@.len(),
            open@.len() == pv.len(),
            row@.len() == pv.len(),
            forall|q: int| 0 <= q < pv.len() ==> row@[q] == pv[q].contains(f),
            g == gain_upto(pv, open@, f, p as int),
            g <= p,
        decreases open@.len() - p,
    {
        if open[p] && row[p] {
            g += 1;
        }
        p += 1;
    }
    g
}

/// The patterns before `p` that list `f` closed.
pub open spec fn partly_closed(pats: Seq<Seq<Seq<char>>>, open: Seq<bool>, f: Seq<char>, p: int) -> Seq<bool> {
    Seq::new(open.len(), |q: int| if q < p { open[q] && !pats[q].contains(f) } else { open[q] })
}

/// When no pattern is uncovered, no code gains anything.
proof fn lemma_gain_closed(pats: Seq<Seq<Seq<char>>>, open: Seq<bool>, f: Seq<char>, n: int)
    requires
        0 <= n <= pats.len(),
        forall|q: int| 0 <= q < pats.len() ==> !open[q],
    ensures
        gain_upto(pats, open, f, n) == 0,
    decreases n,
{
    if n > 0 {
        lemma_gain_closed(pats, open, f, n - 1);
    }
}

proof fn lemma_gain_positive(pats: Seq<Seq<Seq<char>>>, open: Seq<bool>, f: Seq<char>, n: int, p: int)
    requires
        0 <= p < n <= pats.len(),
        open[p],
        pats[p].contains(f),
    ensures
        gain_upto(pats, open, f, n) > 0,
    decreases n,
{
    if p < n - 1 {
        lemma_gain_positive(pats, open, f, n - 1, p);
    }
}

proof fn lemma_closed_by_pick(
    pats: Seq<Seq<Seq<char>>>,
    results: Seq<PathResultEntry>,
    picks: Seq<int>,
    p: int,
)
    requires
        0 <= p < pats.len(),
        !open_after(pats, results, picks)[p],
    ensures
        exists|k: int| 0 <= k < picks.len() && pats[p].contains(#[trigger] results[picks[k]].fumen@),
    decreases picks.len(),
{
    if picks.len() > 0 {
        let before = open_after(pats, results, picks.drop_last());
        let f = results[picks.last()].fumen@;
        if pats[p].contains(f) {
            assert(pats[p].contains(results[picks[picks.len() - 1]].fumen@));
        } else {
            lemma_closed_by_pick(pats, results, picks.drop_last(), p);
            let k = choose|k: int|
                0 <= k < picks.drop_last().len() && pats[p].contains(
                    #[trigger] results[picks.drop_last()[k]].fumen@,
                );
            assert(picks.drop_last()[k] == picks[k]);
        }
    }
}

/// The greedy cover is complete and chooses no code twice: every pattern of
/// the table that lists the code of any entry lists one of the chosen codes,
/// and the chosen codes are distinct.
pub proof fn lemma_strict_minimal_covers(
    results: Seq<PathResultEntry>,
    content: Seq<char>,
    res: Seq<PathResultEntry>,
)
    requires
        strict_minimal_of(results, content, res),
    ensures
        forall|p: int, j: int|
            0 <= p < pattern_lists(records(data_rows(content))).len() && 0 <= j < results.len()
                && #[trigger] pattern_lists(records(data_rows(content)))[p].contains(
                #[trigger] results[j].fumen@,
            ) ==> exists|k: int|
                0 <= k < res.len() && pattern_lists(records(data_rows(content)))[p].contains(
                    #[trigger] res[k].fumen@,
                ),
        forall|k1: int, k2: int|
            0 <= k1 < k2 < res.len() ==> #[trigger] res[k1].fumen@ != #[trigger] res[k2].fumen@,
{
    let pats = pattern_lists(records(data_rows(content)));
    let picks = choose|picks: Seq<int>|
        #[trigger] greedy_cover(pats, results, picks) && res.len() == picks.len() && forall|k: int|
            0 <= k < res.len() ==> res[k] == results[first_with(results, results[picks[k]].fumen@)];
    assert forall|k: int| 0 <= k < picks.len() implies 0 <= #[trigger] picks[k] < results.len()
        && res[k].fumen@ == results[picks[k]].fumen@ by {
        assert(greedy_step(pats, results, picks, k));
        let f = results[picks[k]].fumen@;
        let w = first_with(results, f);
        assert(0 <= w < results.len() && results[w].fumen@ == f);
    }
    let open = open_after(pats, results, picks);
    let sel = chosen(results, picks);
    assert forall|p: int, j: int|
        0 <= p < pats.len() && 0 <= j < results.len() && #[trigger] pats[p].contains(
            #[trigger] results[j].fumen@,
        ) implies exists|k: int| 0 <= k < res.len() && pats[p].contains(#[trigger] res[k].fumen@) by {
        let f = results[j].fumen@;
        if !open[p] {
            lemma_closed_by_pick(pats, results, picks, p);
            let k = choose|k: int|
                0 <= k < picks.len() && pats[p].contains(#[trigger] results[picks[k]].fumen@);
            assert(res[k].fumen@ == results[picks[k]].fumen@);
        } else if sel.contains(f) {
            let k = choose|k: int| 0 <= k < sel.len() && sel[k] == f;
            assert(res[k].fumen@ == results[picks[k]].fumen@);
        } else {
            lemma_gain_positive(pats, open, f, pats.len() as int, p);
            assert(gain(pats, open, results[j].fumen@) > 0);
        }
    }
    assert forall|k1: int, k2: int| 0 <= k1 < k2 < res.len() implies #[trigger] res[k1].fumen@
        != #[trigger] res[k2].fumen@ by {
        assert(greedy_step(pats, results, picks, k2));
        let sel2 = chosen(results, picks.take(k2));
        assert(sel2[k1] == results[picks[k1]].fumen@);
        assert(res[k1].fumen@ == results[picks[k1]].fumen@);
        assert(res[k2].fumen@ == results[picks[k2]].fumen@);
    }
}

/// The field codes of the entries, in order.
pub open spec fn codes_of(es: Seq<PathResultEntry>) -> Seq<Seq<char>> {
    es.map_values(|e: PathResultEntry| e.fumen@)
}

/// The patterns of a `path` results table (see [`pattern_lists`]).
pub open spec fn table_patterns(content: Seq<char>) -> Seq<Seq<Seq<char>>> {
    pattern_lists(records(data_rows(content)))
}

/// The pattern lists none of the taken codes.
pub open spec fn untouched(pat: Seq<Seq<char>>, taken: Seq<Seq<char>>) -> bool {
    forall|m: int| 0 <= m < taken.len() ==> !pat.contains(#[trigger] taken[m])
}

/// How many of the first n patterns list `f` and none of the taken codes.
pub open spec fn newly_covered(pats: Seq<Seq<Seq<char>>>, taken: Seq<Seq<char>>, f: Seq<char>, n: int) -> nat
    decreases n,
{
    if n <= 0 {
        0
    } else {
        newly_covered(pats, taken, f, n - 1) + if untouched(pats[n - 1], taken) && pats[n - 1].contains(f) {
            1nat
        } else {
            0nat
        }
    }
}

/// How many patterns of the table list `f` and none of the taken codes.
pub open spec fn uncovered_by(content: Seq<char>, taken: Seq<Seq<char>>, f: Seq<char>) -> nat {
    newly_covered(table_patterns(content), taken, f, table_patterns(content).len() as int)
}

/// Entry `w` is a greedy choice once the codes `taken` are chosen: its code is
/// not taken yet and covers some pattern that none of them covers, no entry
/// with an untaken code covers more such patterns, and every such entry before
/// it covers fewer.
pub open spec fn greedy_choice(
    results: Seq<PathResultEntry>,
    content: Seq<char>,
    taken: Seq<Seq<char>>,
    w: int,
) -> bool {
    &&& 0 <= w < results.len()
    &&& !taken.contains(results[w].fumen@)
    &&& uncovered_by(content, taken, results[w].fumen@) > 0
    &&& forall|j: int|
        0 <= j < results.len() && !taken.contains(results[j].fumen@) ==> #[trigger] uncovered_by(
            content,
            taken,
            results[j].fumen@,
        ) <= uncovered_by(content, taken, results[w].fumen@) && (j < w ==> uncovered_by(
            content,
            taken,
            results[j].fumen@,
        ) < uncovered_by(content, taken, results[w].fumen@))
}

proof fn lemma_open_after_untouched(
    pats: Seq<Seq<Seq<char>>>,
    results: Seq<PathResultEntry>,
    picks: Seq<int>,
)
    ensures
        open_after(pats, results, picks).len() == pats.len(),
        forall|p: int|
            0 <= p < pats.len() ==> #[trigger] open_after(pats, results, picks)[p] == untouched(
                pats[p],
                chosen(results, picks),
            ),
    decreases picks.len(),
{
    if picks.len() > 0 {
        lemma_open_after_untouched(pats, results, picks.drop_last());
        let before = chosen(results, picks.drop_last());
        let now = chosen(results, picks);
        assert(now =~= before.push(results[picks.last()].fumen@));
        assert forall|p: int| 0 <= p < pats.len() implies #[trigger] open_after(pats, results, picks)[p]
            == untouched(pats[p], now) by {
            if untouched(pats[p], now) {
                assert forall|m: int| 0 <= m < before.len() implies !pats[p].contains(
                    #[trigger] before[m],
                ) by {
                    assert(now[m] == before[m]);
                }
                assert(now[now.len() - 1] == results[picks.last()].fumen@);
            } else {
                let m = choose|m: int| 0 <= m < now.len() && pats[p].contains(#[trigger] now[m]);
                if m < before.len() {
                    assert(now[m] == before[m]);
                }
            }
        }
    } else {
        assert forall|p: int| 0 <= p < pats.len() implies #[trigger] open_after(pats, results, picks)[p]
            == untouched(pats[p], chosen(results, picks)) by {}
    }
}

proof fn lemma_gain_is_newly_covered(
    pats: Seq<Seq<Seq<char>>>,
    open: Seq<bool>,
    taken: Seq<Seq<char>>,
    f: Seq<char>,
    n: int,
)
    requires
        0 <= n <= pats.len(),
        open.len() == pats.len(),
        forall|p: int| 0 <= p < pats.len() ==> #[trigger] open[p] == untouched(pats[p], taken),
    ensures
        gain_upto(pats, open, f, n) == newly_covered(pats, taken, f, n),
    decreases n,
{
    if n > 0 {
        lemma_gain_is_newly_covered(pats, open, taken, f, n - 1);
        assert(open[n - 1] == untouched(pats[n - 1], taken));
    }
}

/// Each code of the strict minimal set is a greedy choice: taken in turn, every
/// one is reported by the first entry with that code, and that entry covers the
/// most patterns that the codes before it leave uncovered (the first of those
/// entries on a tie); and
/// after the last one, no entry with a code not taken covers any pattern left.
pub proof fn lemma_strict_minimal_greedy(results: Seq<PathResultEntry>, content: Seq<char>, res: Seq<PathResultEntry>)
    requires
        strict_minimal_of(results, content, res),
    ensures
        forall|k: int|
            0 <= k < res.len() ==> #[trigger] greedy_choice(
                results,
                content,
                codes_of(res.take(k)),
                first_with(results, res[k].fumen@),
            ) && res[k] == results[first_with(results, res[k].fumen@)],
        forall|j: int|
            0 <= j < results.len() && !codes_of(res).contains(results[j].fumen@) ==> #[trigger] uncovered_by(
                content,
                codes_of(res),
                results[j].fumen@,
            ) == 0,
{
    let pats = pattern_lists(records(data_rows(content)));
    let picks = choose|picks: Seq<int>|
        #[trigger] greedy_cover(pats, results, picks) && res.len() == picks.len() && forall|k: int|
            0 <= k < res.len() ==> res[k] == results[first_with(results, results[picks[k]].fumen@)];
    assert forall|k: int| 0 <= k < picks.len() implies 0 <= #[trigger] picks[k] < results.len()
        && res[k].fumen@ == results[picks[k]].fumen@ && res[k] == results[first_with(
        results,
        results[picks[k]].fumen@,
    )] && first_with(results, results[picks[k]].fumen@) <= picks[k] && 0 <= first_with(
        results,
        results[picks[k]].fumen@,
    ) && results[first_with(results, results[picks[k]].fumen@)].fumen@ == results[picks[k]].fumen@ by {
        assert(greedy_step(pats, results, picks, k));
        let f = results[picks[k]].fumen@;
        let w = first_with(results, f);
        assert(0 <= w < results.len() && results[w].fumen@ == f);
    }
    assert forall|k: int| 0 <= k <= res.len() implies #[trigger] chosen(results, picks.take(k)) =~= codes_of(
        res.take(k),
    ) by {
        assert forall|m: int| 0 <= m < k implies chosen(results, picks.take(k))[m] == codes_of(
            res.take(k),
        )[m] by {
            assert(picks.take(k)[m] == picks[m]);
            assert(res.take(k)[m] == res[m]);
        }
    }
    assert forall|k: int| 0 <= k < res.len() implies #[trigger] greedy_choice(
        results,
        content,
        codes_of(res.take(k)),
        first_with(results, res[k].fumen@),
    ) && res[k] == results[first_with(results, res[k].fumen@)] by {
        assert(greedy_step(pats, results, picks, k));
        let t = picks.take(k);
        let open = open_after(pats, results, t);
        let sel = chosen(results, t);
        assert(sel == codes_of(res.take(k)));
        lemma_open_after_untouched(pats, results, t);
        let f = results[picks[k]].fumen@;
        let w = first_with(results, f);
        assert forall|g: Seq<char>| #[trigger] gain(pats, open, g) == uncovered_by(content, sel, g) by {
            lemma_gain_is_newly_covered(pats, open, sel, g, pats.len() as int);
        }
        assert(gain(pats, open, f) == uncovered_by(content, sel, f));
        assert forall|j: int|
            0 <= j < results.len() && !sel.contains(results[j].fumen@) implies #[trigger] uncovered_by(
            content,
            sel,
            results[j].fumen@,
        ) <= uncovered_by(content, sel, results[w].fumen@) && (j < w ==> uncovered_by(
            content,
            sel,
            results[j].fumen@,
        ) < uncovered_by(content, sel, results[w].fumen@)) by {
            assert(gain(pats, open, results[j].fumen@) == uncovered_by(content, sel, results[j].fumen@));
            if j != picks[k] {
                assert(gain(pats, open, results[j].fumen@) <= gain(pats, open, f));
            }
        }
        assert(greedy_choice(results, content, codes_of(res.take(k)), w));
    }
    let open = open_after(pats, results, picks);
    let sel = chosen(results, picks);
    assert(picks.take(res.len() as int) =~= picks);
    assert(res.take(res.len() as int) =~= res);
    assert(sel == codes_of(res));
    lemma_open_after_untouched(pats, results, picks);
    assert forall|j: int|
        0 <= j < results.len() && !codes_of(res).contains(results[j].fumen@) implies #[trigger] uncovered_by(
        content,
        codes_of(res),
        results[j].fumen@,
    ) == 0 by {
        let g = results[j].fumen@;
        lemma_gain_is_newly_covered(pats, open, sel, g, pats.len() as int);
        assert(cover_done(pats, results, picks));
        if forall|p: int| 0 <= p < pats.len() ==> !open[p] {
            lemma_gain_closed(pats, open, g, pats.len() as int);
        }
        assert(gain(pats, open, g) == 0);
    }
}

/// The directory the solver writes to: the output base when it is set and
/// not empty, `output` otherwise.
pub open spec fn output_dir(config: SfinderCommandConfig) -> Seq<char> {
    match config.output_base {
        Some(b) => if b@.len() > 0 {
            b@
        } else {
            "output"@
        },
        None => "output"@,
    }
}

/// The directory the solver writes to (see [`output_dir`]).
pub fn resolve_output_dir(config: &SfinderCommandConfig) -> (dir: String)
    ensures
        dir@ == output_dir(*config),
{
    match &config.output_base {
        Some(b) => if !b.as_str().is_empty() {
            b.clone()
        } else {
            String::from_str("output")
        },
        None => String::from_str("output"),
    }
}

/// The names of the files a run may leave in the output directory: the
/// command's `.html`, `_unique.html`, `_minimal.html` and `.txt` files.
pub open spec fn output_file_names(command: Seq<char>) -> Seq<Seq<char>> {
    seq![
        command + ".html"@,
        command + "_unique.html"@,
        command + "_minimal.html"@,
        command + ".txt"@,
    ]
}

/// The names of the files a run may leave (see [`output_file_names`]).
pub fn output_file_candidates(config: &SfinderCommandConfig) -> (names: Vec<String>)
    ensures
        strings_view(names@) == output_file_names(config.command@),
{
    let mut names: Vec<String> = Vec::new();
    names.push(config.command.clone().concat(".html"));
    names.push(config.command.clone().concat("_unique.html"));
    names.push(config.command.clone().concat("_minimal.html"));
    names.push(config.command.clone().concat(".txt"));
    assert(strings_view(names@) =~= output_file_names(config.command@));
    names
}

/// The string when it is present and not empty.
pub open spec fn given(s: Option<String>) -> Option<Seq<char>> {
    match s {
        Some(v) => if v@.len() > 0 {
            Some(v@)
        } else {
            None
        },
        None => None,
    }
}

/// The message for a run without a solver jar.
pub open spec fn missing_jar_message() -> Seq<char> {
    "sfinder.jar not found. Place it in Settings or bundle with the app."@
}

/// The jar to run: the configured one when given, else the stored one when
/// not empty, else the bundled one; an error when there is none.
pub fn choose_jar_path(
    config: &SfinderCommandConfig,
    stored: &String,
    bundled: &Option<String>,
) -> (res: Result<String, String>)
    ensures
        match given(config.jar_path) {
            Some(p) => res matches Ok(j) && j@ == p,
            None => if stored@.len() > 0 {
                res matches Ok(j) && j@ == stored@
            } else {
                match bundled {
                    Some(b) => res matches Ok(j) && j@ == b@,
                    None => res matches Err(e) && e@ == missing_jar_message(),
                }
            },
        },
{
    if let Some(p) = &config.jar_path {
        if !p.as_str().is_empty() {
            return Ok(p.clone());
        }
    }
    if !stored.as_str().is_empty() {
        return Ok(stored.clone());
    }
    match bundled {
        Some(b) => Ok(b.clone()),
        None => Err(
            String::from_str("sfinder.jar not found. Place it in Settings or bundle with the app."),
        ),
    }
}

/// The Java command to run: the configured one when given, else the stored
/// one, and `java` when that is empty.
pub fn choose_java(config: &SfinderCommandConfig, stored: &String) -> (java: String)
    ensures
        java@ == match given(config.java_path) {
            Some(p) => p,
            None => if stored@.len() > 0 {
                stored@
            } else {
                "java"@
            },
        },
{
    if let Some(p) = &config.java_path {
        if !p.as_str().is_empty() {
            return p.clone();
        }
    }
    if stored.as_str().is_empty() {
        String::from_str("java")
    } else {
        stored.clone()
    }
}

/// The strings joined with single spaces.
pub open spec fn spaced(parts: Seq<Seq<char>>) -> Seq<char>
    decreases parts.len(),
{
    if parts.len() == 0 {
        Seq::empty()
    } else if parts.len() == 1 {
        parts[0]
    } else {
        spaced(parts.drop_last()) + " "@ + parts.last()
    }
}

/// The arguments for Java: `-jar`, the jar, then the solver's arguments.
pub open spec fn java_args(jar: Seq<char>, config: SfinderCommandConfig) -> Seq<Seq<char>> {
    seq!["-jar"@, jar] + cli_args(config)
}

/// The arguments for Java and the command line as shown to the user: the
/// Java command, a space, and the arguments joined with spaces.
pub fn invocation(java: &String, jar: &String, config: &SfinderCommandConfig) -> (res: (
    Vec<String>,
    String,
))
    ensures
        strings_view(res.0@) == java_args(jar@, *config),
        res.1@ == java@ + " "@ + spaced(java_args(jar@, *config)),
{
    let mut args: Vec<String> = Vec::new();
    args.push(String::from_str("-jar"));
    args.push(jar.clone());
    let rest = build_cli_args(config);
    let mut i: usize = 0;
    assert(strings_view(args@) =~= seq!["-jar"@, jar@]);
    while i < rest.len()
        invariant
            i <= rest@.len(),
            strings_view(args@) == seq!["-jar"@, jar@] + strings_view(rest@).take(i as int),
            strings_view(rest@) == cli_args(*config),
        decreases rest@.len() - i,
    {
        push_string(&mut args, &rest[i]);
        i += 1;
        assert(strings_view(args@) =~= seq!["-jar"@, jar@] + strings_view(rest@).take(i as int));
    }
    assert(strings_view(rest@).take(rest@.len() as int) =~= strings_view(rest@));
    let ghost all = strings_view(args@);
    let mut line = java.clone().concat(" ");
    let mut k: usize = 0;
    while k < args.len()
        invariant
            k <= args@.len(),
            all == strings_view(args@),
            all.len() >= 2,
            k == 0 ==> line@ == java@ + " "@,
            k > 0 ==> line@ == java@ + " "@ + spaced(all.take(k as int)),
        decreases args@.len() - k,
    {
        let ghost before = line@;
        if k > 0 {
            line = line.concat(" ");
        }
        line = line.concat(args[k].as_str());
        proof {
            let t = all.take(k + 1);
            assert(t.drop_last() =~= all.take(k as int));
            assert(t.last() == args@[k as int]@);
            if k == 0 {
                assert(spaced(t) == t[0]);
            }
        }
        k += 1;
        assert(line@ =~= java@ + " "@ + spaced(all.take(k as int)));
    }
    assert(all.take(all.len() as int) =~= all);
    (args, line)
}

/// Where a finished `path` run leaves its table of solutions, if the command is `path`.
pub fn path_csv_location(config: &SfinderCommandConfig) -> (loc: Option<String>)
    ensures
        config.command@ == "path"@ ==> (loc matches Some(l) && l@ == "output/path.csv"@),
        config.command@ != "path"@ ==> loc is None,
{
    if str_equal(config.command.as_str(), "path") {
        Some(String::from_str("output/path.csv"))
    } else {
        None
    }
}

/// Where a finished `cover` run leaves its table, if the command is `cover`:
/// `cover.csv` in the output directory.
pub fn cover_csv_location(config: &SfinderCommandConfig) -> (loc: Option<String>)
    ensures
        is_cover(*config) ==> (loc matches Some(l) && l@ == output_dir(*config) + "/cover.csv"@),
        !is_cover(*config) ==> loc is None,
{
    if str_equal(config.command.as_str(), "cover") {
        let dir = resolve_output_dir(config);
        Some(dir.concat("/cover.csv"))
    } else {
        None
    }
}

/// The text of a table that could be read, or nothing.
pub open spec fn table_text(t: Option<String>) -> Seq<char> {
    match t {
        Some(s) => s@,
        None => Seq::empty(),
    }
}

/// The result of a finished run: output streams, exit code (-1 when the
/// process gave none), the files found and the command line; for `path` the
/// coverage of each solution, the number of patterns and the greedy minimal
/// set of solutions; for `cover` its records and their number; every list or
/// count that is empty or zero is left out.
pub open spec fn run_output(
    config: SfinderCommandConfig,
    stdout: String,
    stderr: String,
    code: Option<i32>,
    files: Vec<String>,
    line: String,
    path_table: Option<String>,
    cover_table: Option<String>,
    out: SfinderOutput,
) -> bool {
    let pt = table_text(path_table);
    let ct = table_text(cover_table);
    let is_path = config.command@ == "path"@;
    let cover = is_cover(config);
    let pcov = path_coverage(pt);
    let precs = records(data_rows(pt)).len();
    let crecs = records(data_rows(ct));
    &&& out.stdout == stdout
    &&& out.stderr == stderr
    &&& out.exit_code == match code {
        Some(c) => c,
        None => -1i32,
    }
    &&& out.output_files == files
    &&& out.command_line == line
    &&& (if is_path && pcov.len() > 0 {
        out.path_results matches Some(v) && v@.len() == pcov.len() && (forall|i: int|
            0 <= i < v@.len() ==> path_entry_is(#[trigger] v@[i], pcov[i])) && match out.strict_minimal {
            Some(m) => m@.len() > 0 && strict_minimal_of(v@, pt, m@),
            None => exists|m: Seq<PathResultEntry>| #[trigger] strict_minimal_of(v@, pt, m) && m.len() == 0,
        }
    } else {
        out.path_results is None && out.strict_minimal is None
    })
    &&& out.path_total_patterns == if is_path && precs > 0 {
        Some(precs as u32)
    } else {
        None
    }
    &&& (if cover && crecs.len() > 0 {
        out.cover_results matches Some(v) && v@.len() == crecs.len() && forall|i: int|
            0 <= i < v@.len() ==> cover_entry_of(#[trigger] v@[i], crecs[i])
    } else {
        out.cover_results is None
    })
    &&& out.cover_total_patterns == if cover && crecs.len() > 0 {
        Some(crecs.len() as u32)
    } else {
        None
    }
}

/// Assembles the result of a finished run from what the process printed and
/// the tables it left (see [`run_output`]); a table that could not be read
/// counts as empty.
pub fn finish_run(
    config: &SfinderCommandConfig,
    stdout: String,
    stderr: String,
    code: Option<i32>,
    files: Vec<String>,
    line: String,
    path_table: Option<String>,
    cover_table: Option<String>,
) -> (out: SfinderOutput)
    requires
        table_text(path_table).len() < u32::MAX,
        table_text(cover_table).len() < u32::MAX,
    ensures
        run_output(*config, stdout, stderr, code, files, line, path_table, cover_table, out),
{
    let ghost pt = table_text(path_table);
    let ghost ct = table_text(cover_table);
    let empty = String::new();
    let ptext: &String = match &path_table {
        Some(s) => s,
        None => &empty,
    };
    let ctext: &String = match &cover_table {
        Some(s) => s,
        None => &empty,
    };
    assert(ptext@ == pt);
    assert(ctext@ == ct);
    let is_path = str_equal(config.command.as_str(), "path");
    let cover = str_equal(config.command.as_str(), "cover");
    let (path_results, path_total) = if is_path {
        path_coverage_from_csv(ptext.as_str())
    } else {
        (Vec::new(), 0)
    };
    let ghost pv = path_results@;
    let strict_minimal = if is_path && path_results.len() > 0 {
        let sm = strict_minimal_from_csv(path_results.as_slice(), ptext.as_str());
        assert(strict_minimal_of(pv, pt, sm@));
        if sm.len() == 0 {
            None
        } else {
            Some(sm)
        }
    } else {
        None
    };
    let path_results = if path_results.len() == 0 {
        None
    } else {
        Some(path_results)
    };
    let path_total_patterns = if path_total > 0 {
        Some(path_total)
    } else {
        None
    };
    proof {
        if is_path && path_coverage(pt).len() > 0 {
            assert(path_results matches Some(v) && v@ == pv);
        }
    }
    let (cover_results, cover_total) = if cover {
        cover_results_from_csv(ctext.as_str())
    } else {
        (Vec::new(), 0)
    };
    let cover_results = if cover_results.len() == 0 {
        None
    } else {
        Some(cover_results)
    };
    let cover_total_patterns = if cover_total > 0 {
        Some(cover_total)
    } else {
        None
    };
    let exit_code = match code {
        Some(c) => c,
        None => -1,
    };
    SfinderOutput {
        stdout,
        stderr,
        exit_code,
        output_files: files,
        command_line: line,
        path_results,
        path_total_patterns,
        strict_minimal,
        cover_results,
        cover_total_patterns,
    }
}

/// A `cover` run reports the records of the cover table, whatever the path
/// table holds: one entry per record, in order, with the record's trimmed
/// pattern, field codes and used pieces and its coverage (0 when that column
/// is not a number), and their number as the total; with no record, neither.
/// It reports no `path` results.
pub proof fn lemma_cover_run_reads_cover_table(
    config: SfinderCommandConfig,
    stdout: String,
    stderr: String,
    code: Option<i32>,
    files: Vec<String>,
    line: String,
    path_table: Option<String>,
    cover_table: Option<String>,
    out: SfinderOutput,
)
    requires
        run_output(config, stdout, stderr, code, files, line, path_table, cover_table, out),
        is_cover(config),
    ensures
        records(data_rows(table_text(cover_table))).len() > 0 ==> out.cover_results is Some
            && out.cover_results.unwrap()@.len() == records(data_rows(table_text(cover_table))).len()
            && out.cover_total_patterns == Some(
            records(data_rows(table_text(cover_table))).len() as u32,
        ),
        forall|i: int|
            0 <= i < records(data_rows(table_text(cover_table))).len() ==> ({
                let row = #[trigger] records(data_rows(table_text(cover_table)))[i];
                let e = out.cover_results.unwrap()@[i];
                &&& e.pattern@ == trim(columns(row)[0])
                &&& e.coverage == match parse_u32_spec(trim(columns(row)[1])) {
                    Some(v) => v,
                    None => 0u32,
                }
                &&& e.used@ == trim(columns(row)[2])
                &&& e.fumen@ == trim(columns(row)[4])
            }),
        records(data_rows(table_text(cover_table))).len() == 0 ==> out.cover_results is None
            && out.cover_total_patterns is None,
        out.path_results is None && out.path_total_patterns is None && out.strict_minimal is None,
{
    reveal_strlit("cover");
    reveal_strlit("path");
    assert("cover"@.len() == 5 && "path"@.len() == 4);
    assert(config.command@ != "path"@);
    let rows = records(data_rows(table_text(cover_table)));
    if rows.len() > 0 {
        let v = out.cover_results.unwrap()@;
        assert forall|i: int| 0 <= i < rows.len() implies cover_entry_of(v[i], #[trigger] rows[i]) by {
            assert(cover_entry_of(v[i], rows[i]));
        }
    }
}

/// A `path` run counts the records of the path table as its total, whatever
/// the cover table holds (no total when there is no record), and reports no
/// `cover` results.
pub proof fn lemma_path_run_reads_path_table(
    config: SfinderCommandConfig,
    stdout: String,
    stderr: String,
    code: Option<i32>,
    files: Vec<String>,
    line: String,
    path_table: Option<String>,
    cover_table: Option<String>,
    out: SfinderOutput,
)
    requires
        run_output(config, stdout, stderr, code, files, line, path_table, cover_table, out),
        config.command@ == "path"@,
    ensures
        out.path_total_patterns == if records(data_rows(table_text(path_table))).len() > 0 {
            Some(records(data_rows(table_text(path_table))).len() as u32)
        } else {
            None
        },
        out.cover_results is None && out.cover_total_patterns is None,
{
    reveal_strlit("cover");
    reveal_strlit("path");
    assert("cover"@.len() == 5 && "path"@.len() == 4);
    assert(!is_cover(config));
}

/// What the running solver reports: text on its output or error stream
/// (already decoded), its end with an exit code if it gave one, an error of
/// the process, or something else.
#[derive(Debug)]
pub enum RunEvent {
    Stdout(String),
    Stderr(String),
    Terminated(Option<i32>),
    Error(String),
    Other,
}

/// What to do after an event: keep listening, collect the results of the
/// finished run, or give up with an error.
#[derive(Debug, PartialEq, Eq)]
pub enum RunStep {
    Continue,
    Finished(Option<i32>),
    Failed(String),
}

/// The output collected so far.
#[derive(Debug)]
pub struct RunLog {
    pub stdout: String,
    pub stderr: String,
}

/// Handles one event of a running solver: text is appended to the stream it
/// came on; the end of the process finishes the run; an error fails it with
/// `Process error: ` and its text; anything else is ignored.
pub fn run_step(log: &mut RunLog, event: RunEvent) -> (step: RunStep)
    ensures
        match event {
            RunEvent::Stdout(t) => final(log).stdout@ == old(log).stdout@ + t@ && final(log).stderr
                == old(log).stderr && step is Continue,
            RunEvent::Stderr(t) => final(log).stderr@ == old(log).stderr@ + t@ && final(log).stdout
                == old(log).stdout && step is Continue,
            RunEvent::Terminated(code) => *final(log) == *old(log) && step == RunStep::Finished(code),
            RunEvent::Error(e) => *final(log) == *old(log) && (step matches RunStep::Failed(m)
                && m@ == "Process error: "@ + e@),
            RunEvent::Other => *final(log) == *old(log) && step is Continue,
        },
{
    match event {
        RunEvent::Stdout(t) => {
            log.stdout.append(t.as_str());
            RunStep::Continue
        },
        RunEvent::Stderr(t) => {
            log.stderr.append(t.as_str());
            RunStep::Continue
        },
        RunEvent::Terminated(code) => RunStep::Finished(code),
        RunEvent::Error(e) => {
            let mut m = String::from_str("Process error: ");
            m.append(e.as_str());
            RunStep::Failed(m)
        },
        RunEvent::Other => RunStep::Continue,
    }
}

/// The error when the solver's event stream ends without the process ending.
pub fn ended_without_termination() -> (e: String)
    ensures
        e@ == "Process ended without termination event"@,
{
    String::from_str("Process ended without termination event")
}

} // verus!
