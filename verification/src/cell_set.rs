//! A finite set of field cells.

use vstd::prelude::*;

verus! {

broadcast use vstd::seq_lib::group_seq_properties;

/// A finite set of cells, each a pair of column and row.
pub struct CellSet {
    cells: Vec<(i32, i32)>,
}

impl View for CellSet {
    type V = Set<(i32, i32)>;

    closed spec fn view(&self) -> Set<(i32, i32)> {
        self.cells@.to_set()
    }
}

impl CellSet {
    /// The set is finite.
    pub proof fn lemma_finite(&self)
        ensures
            self@.finite(),
    {
        self.cells@.lemma_cardinality_of_set();
    }

    /// An empty set.
    pub fn new() -> (s: Self)
        ensures
            s@ == Set::<(i32, i32)>::empty(),
    {
        let s = CellSet { cells: Vec::new() };
        assert(s@ =~= Set::<(i32, i32)>::empty());
        s
    }

    /// The set of the given cells.
    pub fn from_cells(cells: &[(i32, i32)]) -> (s: Self)
        ensures
            s@ == cells@.to_set(),
    {
        let mut v: Vec<(i32, i32)> = Vec::new();
        let mut i: usize = 0;
        while i < cells.len()
            invariant
                i <= cells@.len(),
                v@ == cells@.subrange(0, i as int),
            decreases cells@.len() - i,
        {
            v.push(cells[i]);
            i += 1;
            assert(v@ =~= cells@.subrange(0, i as int));
        }
        assert(cells@.subrange(0, cells@.len() as int) =~= cells@);
        CellSet { cells: v }
    }

    /// Whether the cell is in the set.
    pub fn contains(&self, c: (i32, i32)) -> (res: bool)
        ensures
            res == self@.contains(c),
    {
        let mut i: usize = 0;
        while i < self.cells.len()
            invariant
                i <= self.cells@.len(),
                forall|j: int| 0 <= j < i ==> self.cells@[j] != c,
            decreases self.cells@.len() - i,
        {
            let d = self.cells[i];
            if d.0 == c.0 && d.1 == c.1 {
                assert(self.cells@[i as int] == c);
                return true;
            }
            i += 1;
        }
        false
    }

    /// Adds a cell.
    pub fn insert(&mut self, c: (i32, i32))
        ensures
            final(self)@ == old(self)@.insert(c),
    {
        self.cells.push(c);
        assert(self.cells@.to_set() =~= old(self).cells@.to_set().insert(c));
    }

    /// Removes a cell.
    pub fn remove(&mut self, c: (i32, i32))
        ensures
            final(self)@ == old(self)@.remove(c),
    {
        let mut kept: Vec<(i32, i32)> = Vec::new();
        let mut i: usize = 0;
        while i < self.cells.len()
            invariant
                i <= self.cells@.len(),
                forall|d: (i32, i32)|
                    kept@.contains(d) <==> (d != c && self.cells@.subrange(0, i as int).contains(
                        d,
                    )),
            decreases self.cells@.len() - i,
        {
            let d = self.cells[i];
            if !(d.0 == c.0 && d.1 == c.1) {
                kept.push(d);
            }
            proof {
                assert forall|e: (i32, i32)|
                    kept@.contains(e) <==> (e != c && self.cells@.subrange(0, i + 1).contains(
                        e,
                    )) by {
                    assert(self.cells@.subrange(0, i + 1) =~= self.cells@.subrange(
                        0,
                        i as int,
                    ).push(d));
                }
            }
            i += 1;
        }
        assert(self.cells@.subrange(0, self.cells@.len() as int) =~= self.cells@);
        let ghost before = self@;
        self.cells = kept;
        assert(self@ =~= before.remove(c));
    }

    /// Adds all the given cells.
    pub fn insert_all(&mut self, cells: &[(i32, i32)])
        ensures
            final(self)@ == old(self)@.union(cells@.to_set()),
    {
        let mut i: usize = 0;
        while i < cells.len()
            invariant
                i <= cells@.len(),
                self@ == old(self)@.union(cells@.subrange(0, i as int).to_set()),
            decreases cells@.len() - i,
        {
            self.insert(cells[i]);
            i += 1;
            assert(cells@.subrange(0, i as int) =~= cells@.subrange(0, i - 1).push(cells@[i - 1]));
            assert(cells@.subrange(0, i as int).to_set() =~= cells@.subrange(
                0,
                i - 1,
            ).to_set().insert(cells@[i - 1]));
            assert(self@ =~= old(self)@.union(cells@.subrange(0, i as int).to_set()));
        }
        assert(cells@.subrange(0, cells@.len() as int) =~= cells@);
    }

    /// Removes all the given cells.
    pub fn remove_all(&mut self, cells: &[(i32, i32)])
        ensures
            final(self)@ == old(self)@.difference(cells@.to_set()),
    {
        let mut i: usize = 0;
        while i < cells.len()
            invariant
                i <= cells@.len(),
                self@ == old(self)@.difference(cells@.subrange(0, i as int).to_set()),
            decreases cells@.len() - i,
        {
            self.remove(cells[i]);
            i += 1;
            assert(cells@.subrange(0, i as int) =~= cells@.subrange(0, i - 1).push(cells@[i - 1]));
            assert(cells@.subrange(0, i as int).to_set() =~= cells@.subrange(
                0,
                i - 1,
            ).to_set().insert(cells@[i - 1]));
            assert(self@ =~= old(self)@.difference(cells@.subrange(0, i as int).to_set()));
        }
        assert(cells@.subrange(0, cells@.len() as int) =~= cells@);
    }

    /// A copy of the set.
    pub fn copy(&self) -> (s: Self)
        ensures
            s@ == self@,
    {
        CellSet::from_cells(self.cells.as_slice())
    }
}

} // verus!
