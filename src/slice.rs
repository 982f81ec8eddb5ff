use vstd::prelude::*;

use crate::orientation::Orientation;
use crate::selection::Selection;
use crate::state::GridState;

verus! {

/// Largest number of cells a line may hold, and of lines a board may hold.
pub const MAX_EXTENT: usize = 0x3fff_ffff;

/// The state at `i`, or `OutOfBounds` outside the line.
pub open spec fn cell_at(s: Seq<GridState>, i: int) -> GridState {
    if 0 <= i < s.len() {
        s[i]
    } else {
        GridState::OutOfBounds
    }
}

/// A segment of `length` cells may start at `start`: the cells before and after
/// it are not filled and every cell it covers is inside the line and not empty.
pub open spec fn fits(s: Seq<GridState>, start: int, length: int) -> bool {
    &&& cell_at(s, start - 1) != GridState::Filled
    &&& forall|i: int|
        start <= i < start + length ==> cell_at(s, i) != GridState::Empty && cell_at(s, i)
            != GridState::OutOfBounds
    &&& cell_at(s, start + length) != GridState::Filled
}

/// Every cell that is not filled becomes empty.
pub open spec fn finalized(s: Seq<GridState>) -> Seq<GridState> {
    Seq::new(
        s.len(),
        |i: int|
            if s[i] == GridState::Filled {
                GridState::Filled
            } else {
                GridState::Empty
            },
    )
}

/// The line with a segment written at `[start, start + length)` and an empty
/// cell on each side of it.
pub open spec fn placed(s: Seq<GridState>, start: int, length: int) -> Seq<GridState> {
    Seq::new(
        s.len(),
        |i: int|
            if i == start - 1 {
                GridState::Empty
            } else if start <= i < start + length {
                GridState::Filled
            } else if i == start + length {
                GridState::Empty
            } else {
                s[i]
            },
    )
}

/// Left-to-right scan of a line: the lengths of the filled runs already
/// closed, and the length of the run still open at the end.
pub open spec fn scan(s: Seq<GridState>) -> (Seq<int>, int)
    decreases s.len(),
{
    if s.len() == 0 {
        (seq![], 0)
    } else {
        let prev = scan(s.drop_last());
        if s.last() == GridState::Filled {
            (prev.0, prev.1 + 1)
        } else if prev.1 > 0 {
            (prev.0.push(prev.1), 0)
        } else {
            (prev.0, 0)
        }
    }
}

/// The lengths of the maximal filled runs of a line, in order.
pub open spec fn runs(s: Seq<GridState>) -> Seq<int> {
    let r = scan(s);
    if r.1 > 0 {
        r.0.push(r.1)
    } else {
        r.0
    }
}

/// The runs of a line, with `[0]` standing for a line with no filled cell.
pub open spec fn segments_of(s: Seq<GridState>) -> Seq<int> {
    if runs(s).len() == 0 {
        seq![0]
    } else {
        runs(s)
    }
}

/// A clue as integers.
pub open spec fn clue_view(c: Seq<i32>) -> Seq<int> {
    c.map_values(|v: i32| v as int)
}

/// The canonical form of a clue: the empty clue and `[0]` both mean "no
/// filled cell", and `[0]` is the form used.
pub open spec fn normalized(c: Seq<int>) -> Seq<int> {
    if c.len() == 0 {
        seq![0]
    } else {
        c
    }
}

/// Cell-wise intersection: where the two lines agree the state is kept,
/// elsewhere it becomes `Unknown`.
pub open spec fn merged(a: Seq<GridState>, b: Seq<GridState>) -> Seq<GridState> {
    Seq::new(a.len(), |i: int| if a[i] == b[i] { a[i] } else { GridState::Unknown })
}

/// `new` keeps every confirmed cell of `old`.
pub open spec fn refines(new: Seq<GridState>, old: Seq<GridState>) -> bool {
    &&& new.len() == old.len()
    &&& forall|i: int| 0 <= i < old.len() && (#[trigger] old[i]).is_known() ==> new[i] == old[i]
}

/// Every cell is `Filled` or `Empty`.
pub open spec fn complete(s: Seq<GridState>) -> bool {
    forall|i: int| 0 <= i < s.len() ==> (#[trigger] s[i]).is_known()
}

/// No cell is `OutOfBounds`.
pub open spec fn all_cells(s: Seq<GridState>) -> bool {
    forall|i: int| 0 <= i < s.len() ==> (#[trigger] s[i]).is_cell()
}

/// First filled cell at or after `i`, or `i` itself when there is none
/// before the end (then the line's length).
pub open spec fn next_filled(c: Seq<GridState>, i: int) -> int
    decreases c.len() - i,
{
    if i < 0 || i >= c.len() || c[i] == GridState::Filled {
        i
    } else {
        next_filled(c, i + 1)
    }
}

/// First cell at or after `i` that is not filled (or the line's length).
pub open spec fn run_end(c: Seq<GridState>, i: int) -> int
    decreases c.len() - i,
{
    if 0 <= i < c.len() && c[i] == GridState::Filled {
        run_end(c, i + 1)
    } else {
        i
    }
}

pub proof fn lemma_next_filled(c: Seq<GridState>, i: int)
    requires
        0 <= i <= c.len(),
    ensures
        i <= next_filled(c, i) <= c.len(),
        forall|j: int| i <= j < next_filled(c, i) ==> c[j] != GridState::Filled,
        next_filled(c, i) < c.len() ==> c[next_filled(c, i)] == GridState::Filled,
    decreases c.len() - i,
{
    if i < c.len() && c[i] != GridState::Filled {
        lemma_next_filled(c, i + 1);
    }
}

/// The first filled cell is the one after a stretch of unfilled cells.
pub proof fn lemma_next_filled_at(c: Seq<GridState>, i: int, s: int)
    requires
        0 <= i <= s < c.len(),
        c[s] == GridState::Filled,
        forall|j: int| i <= j < s ==> c[j] != GridState::Filled,
    ensures
        next_filled(c, i) == s,
    decreases s - i,
{
    if i < s {
        lemma_next_filled_at(c, i + 1, s);
    }
}

pub proof fn lemma_run_end(c: Seq<GridState>, i: int)
    requires
        0 <= i <= c.len(),
    ensures
        i <= run_end(c, i) <= c.len(),
        forall|j: int| i <= j < run_end(c, i) ==> c[j] == GridState::Filled,
        run_end(c, i) < c.len() ==> c[run_end(c, i)] != GridState::Filled,
    decreases c.len() - i,
{
    if i < c.len() && c[i] == GridState::Filled {
        lemma_run_end(c, i + 1);
    }
}

/// Runs are positive.
pub proof fn lemma_scan_positive(s: Seq<GridState>)
    ensures
        scan(s).1 >= 0,
        forall|i: int| 0 <= i < scan(s).0.len() ==> scan(s).0[i] > 0,
    decreases s.len(),
{
    if s.len() > 0 {
        lemma_scan_positive(s.drop_last());
    }
}

/// A line with no filled cell has no run.
pub proof fn lemma_runs_none(s: Seq<GridState>)
    requires
        forall|i: int| 0 <= i < s.len() ==> s[i] != GridState::Filled,
    ensures
        scan(s) == (Seq::<int>::empty(), 0int),
        runs(s) == Seq::<int>::empty(),
    decreases s.len(),
{
    if s.len() > 0 {
        lemma_runs_none(s.drop_last());
    }
}

/// A line of filled cells is one open run.
proof fn lemma_scan_block(s: Seq<GridState>)
    requires
        forall|i: int| 0 <= i < s.len() ==> s[i] == GridState::Filled,
    ensures
        scan(s) == (Seq::<int>::empty(), s.len() as int),
    decreases s.len(),
{
    if s.len() > 0 {
        lemma_scan_block(s.drop_last());
    }
}

/// `L` filled cells, optionally followed by one cell that is not filled, form
/// the single run `[L]`.
pub proof fn lemma_runs_block(s: Seq<GridState>, len: int)
    requires
        1 <= len,
        s.len() == len || s.len() == len + 1,
        forall|i: int| 0 <= i < len ==> s[i] == GridState::Filled,
        s.len() == len + 1 ==> s[len] != GridState::Filled,
    ensures
        runs(s) == seq![len],
{
    if s.len() == len {
        lemma_scan_block(s);
    } else {
        lemma_scan_block(s.drop_last());
    }
}

/// Scanning `a + b`, where `a` does not end inside a run.
proof fn lemma_scan_concat(a: Seq<GridState>, b: Seq<GridState>)
    requires
        a.len() == 0 || a.last() != GridState::Filled,
    ensures
        scan(a + b) == (runs(a) + scan(b).0, scan(b).1),
    decreases b.len(),
{
    if b.len() == 0 {
        assert(a + b =~= a);
        assert(runs(a) + Seq::<int>::empty() =~= runs(a));
    } else {
        lemma_scan_concat(a, b.drop_last());
        assert((a + b).drop_last() =~= a + b.drop_last());
        let p = scan(b.drop_last());
        if b.last() != GridState::Filled && p.1 > 0 {
            assert((runs(a) + p.0).push(p.1) =~= runs(a) + p.0.push(p.1));
        }
    }
}

/// The runs of a line split at a cell boundary not inside a run.
pub proof fn lemma_runs_split(s: Seq<GridState>, p: int)
    requires
        0 <= p <= s.len(),
        p == 0 || s[p - 1] != GridState::Filled,
    ensures
        runs(s) == runs(s.subrange(0, p)) + runs(s.subrange(p, s.len() as int)),
{
    let a = s.subrange(0, p);
    let b = s.subrange(p, s.len() as int);
    assert(s =~= a + b);
    lemma_scan_concat(a, b);
    let t = scan(b);
    if t.1 > 0 {
        assert((runs(a) + t.0).push(t.1) =~= runs(a) + t.0.push(t.1));
    }
}

/// The runs of `c` from `lo` on: none when no filled cell follows, else the
/// first run followed by the runs after the cell that ends it.
pub proof fn lemma_decompose(c: Seq<GridState>, lo: int)
    requires
        0 <= lo <= c.len(),
    ensures
        ({
            let n = c.len() as int;
            let s = next_filled(c, lo);
            let e = run_end(c, s);
            let rest = if e + 1 <= n { e + 1 } else { n };
            &&& lo <= s <= n
            &&& s == n ==> runs(c.subrange(lo, n)) == Seq::<int>::empty()
            &&& s < n ==> s < e <= n && runs(c.subrange(lo, n)) == seq![e - s] + runs(
                c.subrange(rest, n),
            )
        }),
{
    let n = c.len() as int;
    lemma_next_filled(c, lo);
    let s = next_filled(c, lo);
    let t = c.subrange(lo, n);
    if s == n {
        lemma_runs_none(t);
    } else {
        lemma_run_end(c, s);
        let e = run_end(c, s);
        let p = s - lo;
        lemma_runs_split(t, p);
        lemma_runs_none(t.subrange(0, p));
        let u = t.subrange(p, t.len() as int);
        assert(u =~= c.subrange(s, n));
        if e == n {
            lemma_runs_block(u, e - s);
            lemma_runs_none(c.subrange(n, n));
            assert(seq![e - s] + Seq::<int>::empty() =~= seq![e - s]);
        } else {
            let q = e - s + 1;
            lemma_runs_split(u, q);
            lemma_runs_block(u.subrange(0, q), e - s);
            assert(u.subrange(q, u.len() as int) =~= c.subrange(e + 1, n));
        }
        assert(Seq::<int>::empty() + runs(u) =~= runs(u));
    }
}

/// Merging a line into itself gives the same line back.
pub proof fn lemma_merge_idempotent(s: Seq<GridState>)
    ensures
        merged(s, s) == s,
{
    assert(merged(s, s) =~= s);
}

/// A snapshot of one row or column.
pub struct Slice {
    pub selection: Selection,
    pub states: Vec<GridState>,
}

impl Slice {
    /// The state at `index`, `OutOfBounds` outside the line.
    pub fn get(&self, index: i32) -> (r: GridState)
        ensures
            r == cell_at(self.states@, index as int),
    {
        if 0 <= index && (index as usize) < self.states.len() {
            self.states[index as usize]
        } else {
            GridState::OutOfBounds
        }
    }

    /// Whether a segment of `length` cells may start at `start`.
    pub fn can_fit(&self, start: i32, length: i32) -> (r: bool)
        requires
            0 <= length,
            i32::MIN < start,
            start + length <= i32::MAX,
        ensures
            r == fits(self.states@, start as int, length as int),
    {
        if self.get(start - 1) == GridState::Filled {
            return false;
        }
        let mut i: i32 = start;
        while i < start + length
            invariant
                start <= i <= start + length,
                start + length <= i32::MAX,
                forall|k: int|
                    start <= k < i ==> cell_at(self.states@, k) != GridState::Empty && cell_at(
                        self.states@,
                        k,
                    ) != GridState::OutOfBounds,
            decreases start + length - i,
        {
            let s = self.get(i);
            if s == GridState::Empty || s == GridState::OutOfBounds {
                return false;
            }
            i += 1;
        }
        self.get(start + length) != GridState::Filled
    }

    /// The completed line: every cell that is not filled becomes empty.
    pub fn finalize(&self) -> (r: Self)
        ensures
            r.selection == self.selection,
            r.states@ == finalized(self.states@),
            complete(r.states@),
    {
        let mut states: Vec<GridState> = Vec::new();
        let mut i: usize = 0;
        while i < self.states.len()
            invariant
                0 <= i <= self.states.len(),
                states@ == finalized(self.states@).subrange(0, i as int),
            decreases self.states.len() - i,
        {
            if self.states[i] == GridState::Filled {
                states.push(GridState::Filled);
            } else {
                states.push(GridState::Empty);
            }
            i += 1;
        }
        assert(states@ == finalized(self.states@));
        Slice { selection: self.selection, states }
    }

    /// The line with a segment placed at `[start, start + length)`, bounded by
    /// an empty cell on each side.
    pub fn place_segment(&self, start: i32, length: i32) -> (r: Self)
        requires
            0 <= length,
            i32::MIN < start,
            start + length <= i32::MAX,
            self.states.len() <= MAX_EXTENT,
        ensures
            r.selection == self.selection,
            r.states@ == placed(self.states@, start as int, length as int),
    {
        let mut states: Vec<GridState> = Vec::new();
        let mut i: usize = 0;
        while i < self.states.len()
            invariant
                0 <= i <= self.states.len(),
                self.states.len() <= MAX_EXTENT,
                0 <= length,
                i32::MIN < start,
                start + length <= i32::MAX,
                states@ == placed(self.states@, start as int, length as int).subrange(0, i as int),
            decreases self.states.len() - i,
        {
            let k = i as i32;
            let s = if k == start - 1 {
                GridState::Empty
            } else if start <= k && k < start + length {
                GridState::Filled
            } else if k == start + length {
                GridState::Empty
            } else {
                self.states[i]
            };
            states.push(s);
            i += 1;
        }
        assert(states@ == placed(self.states@, start as int, length as int));
        Slice { selection: self.selection, states }
    }

    /// The lengths of the filled runs, in order; `[0]` when there is none.
    pub fn get_segments(&self) -> (r: Vec<i32>)
        requires
            self.states.len() <= MAX_EXTENT,
        ensures
            clue_view(r@) == segments_of(self.states@),
    {
        let mut segments: Vec<i32> = Vec::new();
        let mut current: i32 = 0;
        let mut i: usize = 0;
        while i < self.states.len()
            invariant
                0 <= i <= self.states.len(),
                self.states.len() <= MAX_EXTENT,
                0 <= current <= i,
                clue_view(segments@) == scan(self.states@.subrange(0, i as int)).0,
                current as int == scan(self.states@.subrange(0, i as int)).1,
            decreases self.states.len() - i,
        {
            assert(self.states@.subrange(0, i + 1).drop_last() == self.states@.subrange(0, i as int));
            if self.states[i] == GridState::Filled {
                current += 1;
            } else if current > 0 {
                segments.push(current);
                current = 0;
                assert(clue_view(segments@) == scan(self.states@.subrange(0, i + 1)).0);
            }
            i += 1;
        }
        assert(self.states@.subrange(0, self.states.len() as int) == self.states@);
        if current > 0 {
            segments.push(current);
        }
        assert(clue_view(segments@) == runs(self.states@));
        if segments.len() == 0 {
            segments.push(0);
            assert(clue_view(segments@) == seq![0int]);
        }
        segments
    }

    /// Intersects a candidate into an accumulator. With no accumulator yet the
    /// candidate becomes the seed.
    pub fn merge(a: Option<Self>, b: Self) -> (r: Option<Self>)
        requires
            a is Some ==> a->0.states@.len() == b.states@.len(),
        ensures
            r is Some,
            a is None ==> r == Some(b),
            a is Some ==> r->0.selection == a->0.selection && r->0.states@ == merged(
                a->0.states@,
                b.states@,
            ),
    {
        match a {
            None => Some(b),
            Some(a) => {
                let mut states: Vec<GridState> = Vec::new();
                let mut i: usize = 0;
                while i < a.states.len()
                    invariant
                        0 <= i <= a.states.len(),
                        a.states@.len() == b.states@.len(),
                        states@ == merged(a.states@, b.states@).subrange(0, i as int),
                    decreases a.states.len() - i,
                {
                    if a.states[i] == b.states[i] {
                        states.push(a.states[i]);
                    } else {
                        states.push(GridState::Unknown);
                    }
                    i += 1;
                }
                assert(states@ == merged(a.states@, b.states@));
                Some(Slice { selection: a.selection, states })
            },
        }
    }

    /// The perpendicular lines touched by the cells that differ between `a`
    /// (before) and `b` (after): one selection per changed cell, in increasing
    /// order of index, and none for an unchanged cell.
    pub fn get_updates(a: Self, b: Self) -> (r: Vec<Selection>)
        requires
            a.states@.len() == b.states@.len(),
            a.states@.len() <= MAX_EXTENT,
        ensures
            forall|j: int|
                0 <= j < r@.len() ==> {
                    &&& (#[trigger] r@[j]).orientation == a.selection.orientation.inverted()
                    &&& 0 <= r@[j].index < a.states@.len()
                    &&& a.states@[r@[j].index as int] != b.states@[r@[j].index as int]
                },
            forall|j: int, k: int| 0 <= j < k < r@.len() ==> r@[j].index < r@[k].index,
            forall|i: int|
                0 <= i < a.states@.len() && a.states@[i] != b.states@[i] ==> exists|j: int|
                    0 <= j < r@.len() && (#[trigger] r@[j]).index == i,
    {
        let orientation = a.selection.orientation.invert();
        let mut r: Vec<Selection> = Vec::new();
        let mut i: usize = 0;
        while i < a.states.len()
            invariant
                0 <= i <= a.states.len(),
                a.states@.len() == b.states@.len(),
                a.states@.len() <= MAX_EXTENT,
                orientation == a.selection.orientation.inverted(),
                forall|j: int|
                    0 <= j < r@.len() ==> {
                        &&& (#[trigger] r@[j]).orientation == orientation
                        &&& 0 <= r@[j].index < i
                        &&& a.states@[r@[j].index as int] != b.states@[r@[j].index as int]
                    },
                forall|j: int, k: int| 0 <= j < k < r@.len() ==> r@[j].index < r@[k].index,
                forall|x: int|
                    0 <= x < i && a.states@[x] != b.states@[x] ==> exists|j: int|
                        0 <= j < r@.len() && (#[trigger] r@[j]).index == x,
            decreases a.states.len() - i,
        {
            let ghost prev = r@;
            if a.states[i] != b.states[i] {
                r.push(Selection { orientation, index: i as i32 });
                assert(r@[r@.len() - 1].index == i);
            }
            proof {
                assert forall|x: int|
                    0 <= x < i + 1 && a.states@[x] != b.states@[x] implies exists|j: int|
                    0 <= j < r@.len() && (#[trigger] r@[j]).index == x by {
                    if x < i {
                        let j = choose|j: int| 0 <= j < prev.len() && (#[trigger] prev[j]).index == x;
                        assert(r@[j] == prev[j]);
                    } else {
                        assert(r@[r@.len() - 1].index == x);
                    }
                }
            }
            i += 1;
        }
        r
    }

    /// A copy of this line.
    pub fn snapshot(&self) -> (r: Self)
        ensures
            r.selection == self.selection,
            r.states@ == self.states@,
    {
        let mut states: Vec<GridState> = Vec::new();
        let mut i: usize = 0;
        while i < self.states.len()
            invariant
                0 <= i <= self.states.len(),
                states@ == self.states@.subrange(0, i as int),
            decreases self.states.len() - i,
        {
            states.push(self.states[i]);
            i += 1;
        }
        assert(states@ == self.states@);
        Slice { selection: self.selection, states }
    }

    /// Whether this line keeps every confirmed cell of `base`.
    pub fn refines(&self, base: &Slice) -> (r: bool)
        ensures
            r == refines(self.states@, base.states@),
    {
        if self.states.len() != base.states.len() {
            return false;
        }
        let mut i: usize = 0;
        while i < base.states.len()
            invariant
                0 <= i <= base.states.len(),
                self.states@.len() == base.states@.len(),
                forall|k: int|
                    0 <= k < i && (#[trigger] base.states@[k]).is_known() ==> self.states@[k]
                        == base.states@[k],
            decreases base.states.len() - i,
        {
            let s = base.states[i];
            if (s == GridState::Filled || s == GridState::Empty) && self.states[i] != s {
                return false;
            }
            i += 1;
        }
        true
    }
}

} // verus!
