use vstd::prelude::*;

use crate::enumerator::{all_candidates, enumerate, found, is_candidate};
use crate::orientation::Orientation;
use crate::selection::Selection;
use crate::slice::{
    all_cells, clue_view, complete, merged, normalized, refines, segments_of, Slice, MAX_EXTENT,
};
use crate::state::GridState;

verus! {

/// The cells of line `sel` of grid `g`.
pub open spec fn line_of(g: Seq<Seq<GridState>>, sel: Selection) -> Seq<GridState> {
    match sel.orientation {
        Orientation::Row => g[sel.index as int],
        Orientation::Column => Seq::new(g.len(), |j: int| g[j][sel.index as int]),
    }
}

/// Grid `g` with line `sel` overwritten by `s`.
pub open spec fn written(g: Seq<Seq<GridState>>, sel: Selection, s: Seq<GridState>) -> Seq<
    Seq<GridState>,
> {
    match sel.orientation {
        Orientation::Row => g.update(sel.index as int, s),
        Orientation::Column => Seq::new(g.len(), |j: int| g[j].update(sel.index as int, s[j])),
    }
}

/// Grid `new` has the shape of `old` and keeps each of its confirmed cells.
pub open spec fn grid_refines(new: Seq<Seq<GridState>>, old: Seq<Seq<GridState>>) -> bool {
    &&& new.len() == old.len()
    &&& forall|i: int| 0 <= i < old.len() ==> refines(#[trigger] new[i], old[i])
}

/// No cell of `g` is `Unknown`.
pub open spec fn no_unknown(g: Seq<Seq<GridState>>) -> bool {
    forall|i: int, j: int|
        0 <= i < g.len() && 0 <= j < g[i].len() ==> #[trigger] g[i][j] != GridState::Unknown
}

/// Keeping confirmed cells is reflexive.
pub proof fn lemma_grid_refines_refl(a: Seq<Seq<GridState>>)
    ensures
        grid_refines(a, a),
{
}

/// Keeping confirmed cells is transitive: a run of steps that each keep them
/// keeps them all.
pub proof fn lemma_grid_refines_trans(
    a: Seq<Seq<GridState>>,
    b: Seq<Seq<GridState>>,
    c: Seq<Seq<GridState>>,
)
    requires
        grid_refines(b, a),
        grid_refines(c, b),
    ensures
        grid_refines(c, a),
{
    assert forall|i: int| 0 <= i < a.len() implies refines(#[trigger] c[i], a[i]) by {
        assert(refines(b[i], a[i]));
        assert(refines(c[i], b[i]));
        assert forall|k: int| 0 <= k < a[i].len() && (#[trigger] a[i][k]).is_known() implies c[i][k]
            == a[i][k] by {
            assert(b[i][k] == a[i][k]);
        }
    }
}

/// Appends the selections of lines `0..count` along `orientation`.
fn enqueue_all(queue: &mut Vec<Selection>, orientation: Orientation, count: usize)
    requires
        count <= MAX_EXTENT,
    ensures
        final(queue)@.len() == old(queue)@.len() + count,
        forall|k: int| 0 <= k < old(queue)@.len() ==> final(queue)@[k] == old(queue)@[k],
        forall|k: int|
            old(queue)@.len() <= k < final(queue)@.len() ==> #[trigger] final(queue)@[k] == (Selection {
                orientation,
                index: (k - old(queue)@.len()) as i32,
            }),
{
    let ghost start = queue@;
    let mut i: usize = 0;
    while i < count
        invariant
            0 <= i <= count,
            count <= MAX_EXTENT,
            queue@.len() == start.len() + i,
            forall|k: int| 0 <= k < start.len() ==> queue@[k] == start[k],
            forall|k: int|
                start.len() <= k < queue@.len() ==> #[trigger] queue@[k] == (Selection {
                    orientation,
                    index: (k - start.len()) as i32,
                }),
        decreases count - i,
    {
        queue.push(Selection { orientation, index: i as i32 });
        i += 1;
    }
}

/// A vector of `count` copies of `value`.
fn filled_flags(count: usize, value: bool) -> (r: Vec<bool>)
    ensures
        r@.len() == count,
        forall|i: int| 0 <= i < count ==> #[trigger] r@[i] == value,
{
    let mut r: Vec<bool> = Vec::new();
    let mut i: usize = 0;
    while i < count
        invariant
            0 <= i <= count,
            r@.len() == i,
            forall|k: int| 0 <= k < i ==> #[trigger] r@[k] == value,
        decreases count - i,
    {
        r.push(value);
        i += 1;
    }
    r
}

/// Line `sel` waits in the work queue.
spec fn is_pending(rp: Seq<bool>, cp: Seq<bool>, sel: Selection) -> bool {
    match sel.orientation {
        Orientation::Row => rp[sel.index as int],
        Orientation::Column => cp[sel.index as int],
    }
}

/// How a run of the propagation loop ended.
#[derive(Clone, Copy, PartialEq, Eq, Structural, Debug, Hash)]
pub enum Outcome {
    /// Every cell is decided and every line matches its clue.
    Solved,
    /// Some line has no filling consistent with its clue and its known cells.
    Contradiction,
    /// Line logic ran out of work before the grid was decided.
    Stalled,
}

/// All candidates of line `l` under `clue` agree at cell `i`.
pub open spec fn agree_at(l: Seq<GridState>, clue: Seq<int>, i: int) -> bool {
    forall|c1: Seq<GridState>, c2: Seq<GridState>|
        #[trigger] is_candidate(c1, l, clue) && #[trigger] is_candidate(c2, l, clue) ==> c1[i]
            == c2[i]
}

/// Line `l` has a candidate, and every cell on which all its candidates
/// agree is decided: solving the line again changes nothing.
pub open spec fn stable(l: Seq<GridState>, clue: Seq<int>) -> bool {
    &&& exists|c: Seq<GridState>| #[trigger] is_candidate(c, l, clue)
    &&& forall|i: int| 0 <= i < l.len() && #[trigger] agree_at(l, clue, i) ==> l[i].is_known()
}

/// Number of `Unknown` cells of a line.
pub open spec fn unknowns_in(s: Seq<GridState>) -> nat
    decreases s.len(),
{
    if s.len() == 0 {
        0
    } else {
        unknowns_in(s.drop_last()) + if s.last() == GridState::Unknown {
            1nat
        } else {
            0nat
        }
    }
}

/// Number of `Unknown` cells of a grid.
pub open spec fn unknowns(g: Seq<Seq<GridState>>) -> nat
    decreases g.len(),
{
    if g.len() == 0 {
        0
    } else {
        unknowns(g.drop_last()) + unknowns_in(g.last())
    }
}

proof fn lemma_unknowns_in_le(new: Seq<GridState>, old: Seq<GridState>)
    requires
        refines(new, old),
        all_cells(old),
    ensures
        unknowns_in(new) <= unknowns_in(old),
        new != old ==> unknowns_in(new) < unknowns_in(old),
    decreases old.len(),
{
    if old.len() > 0 {
        let n2 = new.drop_last();
        let o2 = old.drop_last();
        assert forall|i: int| 0 <= i < o2.len() && (#[trigger] o2[i]).is_known() implies n2[i] == o2[i] by {
            assert(old[i].is_known());
        }
        assert forall|i: int| 0 <= i < o2.len() implies (#[trigger] o2[i]).is_cell() by {
            assert(old[i].is_cell());
        }
        lemma_unknowns_in_le(n2, o2);
        assert(old.last() == old[old.len() - 1]);
        assert(new.last() == new[old.len() - 1]);
        assert(old[old.len() - 1].is_cell());
        assert(old[old.len() - 1].is_known() ==> new[old.len() - 1] == old[old.len() - 1]);
        if n2 == o2 && new.last() == old.last() {
            assert forall|i: int| 0 <= i < old.len() implies new[i] == old[i] by {
                if i < old.len() - 1 {
                    assert(n2[i] == new[i]);
                    assert(o2[i] == old[i]);
                }
            }
            assert(new =~= old);
        }
    } else {
        assert(new =~= old);
    }
}

proof fn lemma_unknowns_le(new: Seq<Seq<GridState>>, old: Seq<Seq<GridState>>)
    requires
        grid_refines(new, old),
        forall|i: int| 0 <= i < old.len() ==> all_cells(#[trigger] old[i]),
    ensures
        unknowns(new) <= unknowns(old),
        new != old ==> unknowns(new) < unknowns(old),
    decreases old.len(),
{
    if old.len() > 0 {
        let n2 = new.drop_last();
        let o2 = old.drop_last();
        assert forall|i: int| 0 <= i < o2.len() implies refines(#[trigger] n2[i], o2[i]) by {
            assert(refines(new[i], old[i]));
        }
        assert forall|i: int| 0 <= i < o2.len() implies all_cells(#[trigger] o2[i]) by {
            assert(all_cells(old[i]));
        }
        lemma_unknowns_le(n2, o2);
        assert(refines(new[old.len() - 1], old[old.len() - 1]));
        assert(all_cells(old[old.len() - 1]));
        assert(new.last() == new[old.len() - 1]);
        assert(old.last() == old[old.len() - 1]);
        lemma_unknowns_in_le(new.last(), old.last());
        if n2 == o2 && new.last() == old.last() {
            assert forall|i: int| 0 <= i < old.len() implies new[i] == old[i] by {
                if i < old.len() - 1 {
                    assert(n2[i] == new[i]);
                    assert(o2[i] == old[i]);
                }
            }
            assert(new =~= old);
        }
    } else {
        assert(new =~= old);
    }
}

/// Keeping confirmed cells is transitive on lines.
pub proof fn lemma_refines_trans(a: Seq<GridState>, b: Seq<GridState>, c: Seq<GridState>)
    requires
        refines(b, a),
        refines(c, b),
    ensures
        refines(c, a),
{
    assert forall|i: int| 0 <= i < a.len() && (#[trigger] a[i]).is_known() implies c[i] == a[i] by {
        assert(b[i] == a[i]);
    }
}

/// Grids that keep each other's confirmed cells, and hold no
/// `OutOfBounds`, are equal.
pub proof fn lemma_grid_refines_antisym(a: Seq<Seq<GridState>>, b: Seq<Seq<GridState>>)
    requires
        grid_refines(a, b),
        grid_refines(b, a),
        forall|i: int| 0 <= i < a.len() ==> all_cells(#[trigger] a[i]),
        forall|i: int| 0 <= i < b.len() ==> all_cells(#[trigger] b[i]),
    ensures
        a == b,
{
    assert forall|i: int| 0 <= i < a.len() implies #[trigger] a[i] == b[i] by {
        assert(refines(a[i], b[i]));
        assert(refines(b[i], a[i]));
        assert(all_cells(a[i]));
        assert(all_cells(b[i]));
        assert forall|k: int| 0 <= k < a[i].len() implies a[i][k] == b[i][k] by {
            assert(a[i][k].is_cell());
            assert(b[i][k].is_cell());
        }
        assert(a[i] =~= b[i]);
    }
    assert(a =~= b);
}

/// Why a set of clues was refused.
#[derive(Clone, Copy, PartialEq, Eq, Structural, Debug, Hash)]
pub enum ClueError {
    /// More rows or columns than a board can hold.
    TooManyLines,
    /// A clue holds a segment length below one (other than the lone `[0]`).
    NonPositiveSegment,
}

/// A clue is empty, the lone `[0]`, or a list of positive lengths.
pub open spec fn clue_ok(c: Seq<i32>) -> bool {
    c == seq![0i32] || forall|k: int| 0 <= k < c.len() ==> c[k] > 0
}

/// Every clue of `cs` is well formed.
pub open spec fn clues_ok(cs: Seq<Vec<i32>>) -> bool {
    forall|i: int| 0 <= i < cs.len() ==> clue_ok(#[trigger] cs[i]@)
}

/// Whether every clue of `cs` is well formed.
fn check_clues(cs: &Vec<Vec<i32>>) -> (r: bool)
    ensures
        r == clues_ok(cs@),
{
    let mut i: usize = 0;
    while i < cs.len()
        invariant
            0 <= i <= cs.len(),
            forall|x: int| 0 <= x < i ==> clue_ok(#[trigger] cs@[x]@),
        decreases cs.len() - i,
    {
        let c = &cs[i];
        if !(c.len() == 1 && c[0] == 0) {
            let mut k: usize = 0;
            while k < c.len()
                invariant
                    0 <= k <= c.len(),
                    0 <= i < cs.len(),
                    c@ == cs@[i as int]@,
                    !(c@.len() == 1 && c@[0] == 0),
                    forall|y: int| 0 <= y < k ==> c@[y] > 0,
                decreases c.len() - k,
            {
                if c[k] <= 0 {
                    assert(seq![0i32].len() == 1 && seq![0i32][0] == 0);
                    assert(c@ != seq![0i32]);
                    assert(!clue_ok(cs@[i as int]@));
                    return false;
                }
                k += 1;
            }
        } else {
            assert(c@ =~= seq![0i32]);
        }
        i += 1;
    }
    true
}

/// A grid of cell states with the clue of every row and column.
pub struct Board {
    states: Vec<Vec<GridState>>,
    rows: Vec<Vec<i32>>,
    columns: Vec<Vec<i32>>,
}

/// A copy of a clue.
fn copy_clue(v: &Vec<i32>) -> (r: Vec<i32>)
    ensures
        r@ == v@,
{
    let mut r: Vec<i32> = Vec::new();
    let mut i: usize = 0;
    while i < v.len()
        invariant
            0 <= i <= v.len(),
            r@ == v@.subrange(0, i as int),
        decreases v.len() - i,
    {
        r.push(v[i]);
        i += 1;
    }
    assert(r@ == v@);
    r
}

impl Board {
    /// The cell states, row by row.
    pub closed spec fn grid(&self) -> Seq<Seq<GridState>> {
        self.states@.map_values(|r: Vec<GridState>| r@)
    }

    pub closed spec fn row_clues(&self) -> Seq<Seq<i32>> {
        self.rows@.map_values(|c: Vec<i32>| c@)
    }

    pub closed spec fn column_clues(&self) -> Seq<Seq<i32>> {
        self.columns@.map_values(|c: Vec<i32>| c@)
    }

    pub open spec fn height(&self) -> nat {
        self.row_clues().len()
    }

    pub open spec fn width(&self) -> nat {
        self.column_clues().len()
    }

    /// The grid is `height` rows of `width` cells, none `OutOfBounds`.
    pub open spec fn wf(&self) -> bool {
        &&& self.grid().len() == self.height()
        &&& self.height() <= MAX_EXTENT
        &&& self.width() <= MAX_EXTENT
        &&& forall|i: int| 0 <= i < self.height() ==> (#[trigger] self.grid()[i]).len() == self.width()
        &&& forall|i: int| 0 <= i < self.height() ==> all_cells(#[trigger] self.grid()[i])
    }

    /// `sel` names a line of this board.
    pub open spec fn valid(&self, sel: Selection) -> bool {
        &&& 0 <= sel.index
        &&& match sel.orientation {
            Orientation::Row => sel.index < self.height(),
            Orientation::Column => sel.index < self.width(),
        }
    }

    pub open spec fn clue_of(&self, sel: Selection) -> Seq<i32> {
        match sel.orientation {
            Orientation::Row => self.row_clues()[sel.index as int],
            Orientation::Column => self.column_clues()[sel.index as int],
        }
    }

    pub open spec fn line(&self, sel: Selection) -> Seq<GridState> {
        line_of(self.grid(), sel)
    }

    /// The filled runs of line `sel` are its clue.
    pub open spec fn satisfied(&self, sel: Selection) -> bool {
        segments_of(self.line(sel)) == normalized(clue_view(self.clue_of(sel)))
    }

    /// Every cell is decided and every line matches its clue.
    pub open spec fn solved(&self) -> bool {
        &&& no_unknown(self.grid())
        &&& forall|sel: Selection| self.valid(sel) ==> #[trigger] self.satisfied(sel)
    }

    /// `s` is a full solution of this board's clues: `height` rows of
    /// `width` decided cells whose every line has its clue's runs.
    pub open spec fn is_solution(&self, s: Seq<Seq<GridState>>) -> bool {
        &&& s.len() == self.height()
        &&& forall|i: int| 0 <= i < s.len() ==> (#[trigger] s[i]).len() == self.width()
        &&& forall|i: int| 0 <= i < s.len() ==> complete(#[trigger] s[i])
        &&& forall|sel: Selection|
            self.valid(sel) ==> segments_of(#[trigger] line_of(s, sel)) == normalized(
                clue_view(self.clue_of(sel)),
            )
    }

    /// A line of a solution that keeps the board's confirmed cells is a
    /// candidate for that line.
    pub proof fn lemma_solution_line(&self, s: Seq<Seq<GridState>>, sel: Selection)
        requires
            self.wf(),
            self.is_solution(s),
            grid_refines(s, self.grid()),
            self.valid(sel),
        ensures
            is_candidate(line_of(s, sel), self.line(sel), clue_view(self.clue_of(sel))),
    {
        let idx = sel.index as int;
        let g = self.grid();
        let l = line_of(s, sel);
        assert(segments_of(line_of(s, sel)) == normalized(clue_view(self.clue_of(sel))));
        match sel.orientation {
            Orientation::Row => {
                assert(complete(s[idx]));
                assert(refines(s[idx], g[idx]));
            },
            Orientation::Column => {
                assert forall|j: int| 0 <= j < l.len() implies (#[trigger] l[j]).is_known() by {
                    assert(complete(s[j]));
                }
                assert forall|j: int| 0 <= j < l.len() && (#[trigger] self.line(sel)[j]).is_known()
                    implies l[j] == self.line(sel)[j] by {
                    assert(refines(s[j], g[j]));
                }
            },
        }
    }

    /// `h` is a grid of this board's shape on which no line can be narrowed
    /// further: every line is stable under its clue.
    pub open spec fn is_fixpoint_grid(&self, h: Seq<Seq<GridState>>) -> bool {
        &&& h.len() == self.height()
        &&& forall|i: int| 0 <= i < h.len() ==> (#[trigger] h[i]).len() == self.width() && all_cells(h[i])
        &&& forall|sel: Selection|
            self.valid(sel) ==> #[trigger] stable(line_of(h, sel), clue_view(self.clue_of(sel)))
    }

    /// `f` is the least informed fixpoint grid that keeps the confirmed cells
    /// of `start`: every fixpoint grid keeping them keeps those of `f`.
    pub open spec fn is_least_fixpoint(&self, start: Seq<Seq<GridState>>, f: Seq<Seq<GridState>>) -> bool {
        &&& self.is_fixpoint_grid(f)
        &&& grid_refines(f, start)
        &&& forall|h: Seq<Seq<GridState>>|
            #[trigger] self.is_fixpoint_grid(h) && grid_refines(h, start) ==> grid_refines(h, f)
    }

    /// There is a single least fixpoint above a grid: two runs that reach
    /// one end on the same cells, whatever order they solved lines in.
    pub proof fn lemma_least_fixpoint_unique(
        &self,
        start: Seq<Seq<GridState>>,
        f1: Seq<Seq<GridState>>,
        f2: Seq<Seq<GridState>>,
    )
        requires
            self.is_least_fixpoint(start, f1),
            self.is_least_fixpoint(start, f2),
        ensures
            f1 == f2,
    {
        assert(grid_refines(f2, f1));
        assert(grid_refines(f1, f2));
        lemma_grid_refines_antisym(f1, f2);
    }

    /// A line of a grid keeping this board's confirmed cells keeps those of
    /// the board's line.
    pub proof fn lemma_line_refines(&self, h: Seq<Seq<GridState>>, sel: Selection)
        requires
            self.wf(),
            self.valid(sel),
            grid_refines(h, self.grid()),
        ensures
            refines(line_of(h, sel), self.line(sel)),
    {
        let idx = sel.index as int;
        let g = self.grid();
        match sel.orientation {
            Orientation::Row => {
                assert(refines(h[idx], g[idx]));
            },
            Orientation::Column => {
                assert forall|j: int| 0 <= j < g.len() && (#[trigger] self.line(sel)[j]).is_known()
                    implies line_of(h, sel)[j] == self.line(sel)[j] by {
                    assert(refines(h[j], g[j]));
                }
            },
        }
    }

    /// Writing line `ms` keeps `h` above the board when `h`'s line keeps the
    /// confirmed cells of `ms`.
    pub proof fn lemma_written_refined(&self, h: Seq<Seq<GridState>>, sel: Selection, ms: Seq<GridState>)
        requires
            self.wf(),
            self.valid(sel),
            grid_refines(h, self.grid()),
            refines(line_of(h, sel), ms),
            ms.len() == self.line(sel).len(),
        ensures
            grid_refines(h, written(self.grid(), sel, ms)),
    {
        let g = self.grid();
        let w = written(g, sel, ms);
        let l = line_of(h, sel);
        let idx = sel.index as int;
        assert forall|k: int| 0 <= k < g.len() implies refines(#[trigger] h[k], w[k]) by {
            assert(refines(h[k], g[k]));
            match sel.orientation {
                Orientation::Row => {
                    if k == idx {
                        assert(w[k] == ms);
                    } else {
                        assert(w[k] == g[k]);
                    }
                },
                Orientation::Column => {
                    assert(w[k] == g[k].update(idx, ms[k]));
                    assert(l[k] == h[k][idx]);
                    assert forall|x: int| 0 <= x < w[k].len() && (#[trigger] w[k][x]).is_known()
                        implies h[k][x] == w[k][x] by {
                        if x != idx {
                            assert(w[k][x] == g[k][x]);
                        }
                    }
                },
            }
        }
    }

    /// A line with no candidate leaves no fixpoint grid above the board, so a
    /// run from it can only end in `Contradiction`.
    pub proof fn lemma_unsatisfiable_line(&self, sel: Selection, h: Seq<Seq<GridState>>)
        requires
            self.wf(),
            self.valid(sel),
            forall|c: Seq<GridState>|
                !#[trigger] is_candidate(c, self.line(sel), clue_view(self.clue_of(sel))),
            grid_refines(h, self.grid()),
        ensures
            !self.is_fixpoint_grid(h),
    {
        if self.is_fixpoint_grid(h) {
            let cl = clue_view(self.clue_of(sel));
            let lh = line_of(h, sel);
            assert(stable(lh, cl));
            self.lemma_line_refines(h, sel);
            let c = choose|c: Seq<GridState>| #[trigger] is_candidate(c, lh, cl);
            lemma_refines_trans(self.line(sel), lh, c);
            assert(is_candidate(c, self.line(sel), cl));
        }
    }

    /// Being a fixpoint grid depends on the clues alone.
    pub proof fn lemma_fixpoint_same_clues(&self, other: Board, h: Seq<Seq<GridState>>)
        requires
            self.row_clues() == other.row_clues(),
            self.column_clues() == other.column_clues(),
            self.is_fixpoint_grid(h),
        ensures
            other.is_fixpoint_grid(h),
    {
        assert forall|sel: Selection| other.valid(sel) implies #[trigger] stable(
            line_of(h, sel),
            clue_view(other.clue_of(sel)),
        ) by {
            assert(self.valid(sel));
            assert(self.clue_of(sel) == other.clue_of(sel));
        }
    }

    /// Line `sel` of this board, solved again, would not change.
    pub open spec fn line_stable(&self, sel: Selection) -> bool {
        stable(self.line(sel), clue_view(self.clue_of(sel)))
    }

    /// Writing line `sel` leaves another line `other` as it was, unless
    /// `other` crosses `sel` at a cell whose state changed.
    proof fn lemma_other_line_kept(&self, sel: Selection, ms: Seq<GridState>, other: Selection)
        requires
            self.wf(),
            self.valid(sel),
            self.valid(other),
            other != sel,
            ms.len() == self.line(sel).len(),
            other.orientation != sel.orientation ==> ms[other.index as int] == self.line(
                sel,
            )[other.index as int],
        ensures
            line_of(written(self.grid(), sel, ms), other) == self.line(other),
    {
        let g = self.grid();
        let w = written(g, sel, ms);
        let idx = sel.index as int;
        let o = other.index as int;
        match sel.orientation {
            Orientation::Row => {
                match other.orientation {
                    Orientation::Row => {
                        assert(w[o] == g[o]);
                    },
                    Orientation::Column => {
                        assert(line_of(w, other) =~= self.line(other));
                    },
                }
            },
            Orientation::Column => {
                match other.orientation {
                    Orientation::Row => {
                        assert(w[o] =~= g[o]);
                    },
                    Orientation::Column => {
                        assert(line_of(w, other) =~= self.line(other));
                    },
                }
            },
        }
    }

    /// An all-`Unknown` board for the given row and column clues.
    pub fn new(rows: Vec<Vec<i32>>, columns: Vec<Vec<i32>>) -> (r: Self)
        requires
            rows.len() <= MAX_EXTENT,
            columns.len() <= MAX_EXTENT,
            clues_ok(rows@),
            clues_ok(columns@),
        ensures
            r.wf(),
            r.row_clues() == rows@.map_values(|c: Vec<i32>| c@),
            r.column_clues() == columns@.map_values(|c: Vec<i32>| c@),
            forall|i: int, j: int|
                0 <= i < r.height() && 0 <= j < r.width() ==> #[trigger] r.grid()[i][j]
                    == GridState::Unknown,
    {
        let n = rows.len();
        let m = columns.len();
        let mut states: Vec<Vec<GridState>> = Vec::new();
        let mut i: usize = 0;
        while i < n
            invariant
                0 <= i <= n,
                states.len() == i,
                forall|k: int|
                    0 <= k < i ==> (#[trigger] states@[k])@ == Seq::new(
                        m as nat,
                        |j: int| GridState::Unknown,
                    ),
            decreases n - i,
        {
            let mut row: Vec<GridState> = Vec::new();
            let mut j: usize = 0;
            while j < m
                invariant
                    0 <= j <= m,
                    row@ == Seq::new(j as nat, |x: int| GridState::Unknown),
                decreases m - j,
            {
                row.push(GridState::Unknown);
                j += 1;
            }
            states.push(row);
            i += 1;
        }
        let r = Board { states, rows, columns };
        assert forall|k: int| 0 <= k < r.height() implies all_cells(#[trigger] r.grid()[k]) by {
            assert(r.grid()[k] == r.states@[k]@);
        }
        r
    }

    /// An all-`Unknown` board, after checking the clues: fails when there
    /// are too many lines, or when a clue holds a segment length below one.
    pub fn try_new(rows: Vec<Vec<i32>>, columns: Vec<Vec<i32>>) -> (r: Result<Self, ClueError>)
        ensures
            (r == Err::<Self, ClueError>(ClueError::TooManyLines)) <==> (rows.len() > MAX_EXTENT
                || columns.len() > MAX_EXTENT),
            (r == Err::<Self, ClueError>(ClueError::NonPositiveSegment)) <==> (rows.len()
                <= MAX_EXTENT && columns.len() <= MAX_EXTENT && !(clues_ok(rows@) && clues_ok(
                columns@,
            ))),
            r is Ok ==> {
                let b = r->Ok_0;
                &&& b.wf()
                &&& b.row_clues() == rows@.map_values(|c: Vec<i32>| c@)
                &&& b.column_clues() == columns@.map_values(|c: Vec<i32>| c@)
                &&& forall|i: int, j: int|
                    0 <= i < b.height() && 0 <= j < b.width() ==> #[trigger] b.grid()[i][j]
                        == GridState::Unknown
            },
    {
        if rows.len() > MAX_EXTENT || columns.len() > MAX_EXTENT {
            return Err(ClueError::TooManyLines);
        }
        if !check_clues(&rows) || !check_clues(&columns) {
            return Err(ClueError::NonPositiveSegment);
        }
        Ok(Board::new(rows, columns))
    }

    /// Number of rows.
    pub fn num_rows(&self) -> (r: usize)
        ensures
            r == self.height(),
    {
        self.rows.len()
    }

    /// Number of columns.
    pub fn num_columns(&self) -> (r: usize)
        ensures
            r == self.width(),
    {
        self.columns.len()
    }

    /// The state of the cell at `row`, `col`.
    pub fn cell(&self, row: usize, col: usize) -> (r: GridState)
        requires
            self.wf(),
            row < self.height(),
            col < self.width(),
        ensures
            r == self.grid()[row as int][col as int],
    {
        assert(self.grid()[row as int] == self.states@[row as int]@);
        self.states[row][col]
    }

    /// The clue of line `selection`.
    pub fn get_segments(&self, selection: Selection) -> (r: Vec<i32>)
        requires
            self.wf(),
            self.valid(selection),
        ensures
            r@ == self.clue_of(selection),
    {
        match selection.orientation {
            Orientation::Row => copy_clue(&self.rows[selection.index as usize]),
            Orientation::Column => copy_clue(&self.columns[selection.index as usize]),
        }
    }

    /// A snapshot of line `selection`.
    pub fn extract_slice(&self, selection: Selection) -> (r: Slice)
        requires
            self.wf(),
            self.valid(selection),
        ensures
            r.selection == selection,
            r.states@ == self.line(selection),
    {
        let idx = selection.index as usize;
        let mut states: Vec<GridState> = Vec::new();
        match selection.orientation {
            Orientation::Row => {
                let row = &self.states[idx];
                assert(row@ == self.grid()[idx as int]);
                let mut j: usize = 0;
                while j < row.len()
                    invariant
                        0 <= j <= row.len(),
                        states@ == row@.subrange(0, j as int),
                    decreases row.len() - j,
                {
                    states.push(row[j]);
                    j += 1;
                }
                assert(states@ == row@);
            },
            Orientation::Column => {
                let mut j: usize = 0;
                while j < self.states.len()
                    invariant
                        self.wf(),
                        0 <= j <= self.states.len(),
                        self.states.len() == self.height(),
                        idx < self.width(),
                        states@ == self.line(selection).subrange(0, j as int),
                        selection.orientation == Orientation::Column,
                        selection.index == idx,
                    decreases self.states.len() - j,
                {
                    assert(self.grid()[j as int] == self.states@[j as int]@);
                    states.push(self.states[j][idx]);
                    j += 1;
                }
                assert(states@ == self.line(selection));
            },
        }
        Slice { selection, states }
    }

    /// Overwrites line `slice.selection` with `slice.states`.
    pub fn apply_slice(&mut self, slice: Slice)
        requires
            old(self).wf(),
            old(self).valid(slice.selection),
            slice.states@.len() == old(self).line(slice.selection).len(),
            all_cells(slice.states@),
        ensures
            final(self).wf(),
            final(self).row_clues() == old(self).row_clues(),
            final(self).column_clues() == old(self).column_clues(),
            final(self).grid() == written(old(self).grid(), slice.selection, slice.states@),
    {
        let i = slice.selection.index as usize;
        match slice.selection.orientation {
            Orientation::Row => {
                self.states[i] = slice.states;
                assert(self.grid() =~= written(old(self).grid(), slice.selection, slice.states@));
            },
            Orientation::Column => {
                let mut j: usize = 0;
                while j < self.states.len()
                    invariant
                        old(self).wf(),
                        0 <= j <= self.states.len(),
                        self.states.len() == old(self).states.len(),
                        self.rows == old(self).rows,
                        self.columns == old(self).columns,
                        i < old(self).width(),
                        slice.states@.len() == old(self).height(),
                        slice.selection.orientation == Orientation::Column,
                        slice.selection.index == i,
                        forall|k: int|
                            0 <= k < j ==> (#[trigger] self.states@[k])@ == old(
                                self,
                            ).grid()[k].update(i as int, slice.states@[k]),
                        forall|k: int|
                            j <= k < self.states.len() ==> (#[trigger] self.states@[k])@ == old(
                                self,
                            ).grid()[k],
                    decreases self.states.len() - j,
                {
                    assert(self.states@[j as int]@ == old(self).grid()[j as int]);
                    self.states[j][i] = slice.states[j];
                    j += 1;
                }
                assert(self.grid() =~= written(old(self).grid(), slice.selection, slice.states@));
            },
        }
        assert forall|k: int| 0 <= k < self.height() implies all_cells(#[trigger] self.grid()[k])
            && self.grid()[k].len() == self.width() by {
            assert(all_cells(old(self).grid()[k]));
        }
    }

    /// Whether the filled runs of `slice` are exactly the clue of the line it
    /// was taken from.
    pub fn slice_is_completed(&self, slice: Slice) -> (r: bool)
        requires
            self.wf(),
            self.valid(slice.selection),
            slice.states.len() <= MAX_EXTENT,
        ensures
            r == (segments_of(slice.states@) == normalized(clue_view(self.clue_of(slice.selection)))),
    {
        let clue = self.get_segments(slice.selection);
        crate::enumerator::matches_clue(&slice, &clue)
    }

    /// Whether no cell is `Unknown`.
    pub fn is_solved(&self) -> (r: bool)
        requires
            self.wf(),
        ensures
            r == no_unknown(self.grid()),
    {
        let mut i: usize = 0;
        while i < self.states.len()
            invariant
                self.wf(),
                0 <= i <= self.states.len(),
                self.states.len() == self.height(),
                forall|a: int, b: int|
                    0 <= a < i && 0 <= b < self.grid()[a].len() ==> #[trigger] self.grid()[a][b]
                        != GridState::Unknown,
            decreases self.states.len() - i,
        {
            let row = &self.states[i];
            assert(row@ == self.grid()[i as int]);
            let mut j: usize = 0;
            while j < row.len()
                invariant
                    0 <= j <= row.len(),
                    0 <= i < self.grid().len(),
                    row@ == self.grid()[i as int],
                    forall|b: int| 0 <= b < j ==> row@[b] != GridState::Unknown,
                decreases row.len() - j,
            {
                if row[j] == GridState::Unknown {
                    assert(self.grid()[i as int][j as int] == GridState::Unknown);
                    assert(!no_unknown(self.grid()));
                    return false;
                }
                j += 1;
            }
            i += 1;
        }
        true
    }

    /// Whether every row and every column matches its clue.
    fn clues_met(&self) -> (r: bool)
        requires
            self.wf(),
        ensures
            r == (forall|sel: Selection| self.valid(sel) ==> #[trigger] self.satisfied(sel)),
    {
        let n = self.rows.len();
        let m = self.columns.len();
        let mut i: usize = 0;
        while i < n
            invariant
                self.wf(),
                n == self.height(),
                0 <= i <= n,
                forall|k: int|
                    0 <= k < i ==> #[trigger] self.satisfied(
                        Selection { orientation: Orientation::Row, index: k as i32 },
                    ),
            decreases n - i,
        {
            let sel = Selection { orientation: Orientation::Row, index: i as i32 };
            let line = self.extract_slice(sel);
            if !self.slice_is_completed(line) {
                assert(self.valid(sel) && !self.satisfied(sel));
                return false;
            }
            i += 1;
        }
        let mut j: usize = 0;
        while j < m
            invariant
                self.wf(),
                m == self.width(),
                0 <= j <= m,
                forall|k: int|
                    0 <= k < j ==> #[trigger] self.satisfied(
                        Selection { orientation: Orientation::Column, index: k as i32 },
                    ),
            decreases m - j,
        {
            let sel = Selection { orientation: Orientation::Column, index: j as i32 };
            let line = self.extract_slice(sel);
            if !self.slice_is_completed(line) {
                assert(self.valid(sel) && !self.satisfied(sel));
                return false;
            }
            j += 1;
        }
        assert forall|sel: Selection| self.valid(sel) implies #[trigger] self.satisfied(sel) by {
            let k = sel.index as int;
            match sel.orientation {
                Orientation::Row => {
                    assert(sel == Selection { orientation: Orientation::Row, index: k as i32 });
                },
                Orientation::Column => {
                    assert(sel == Selection { orientation: Orientation::Column, index: k as i32 });
                },
            }
        }
        true
    }

    /// One propagation step on line `selection`: enumerates its candidates,
    /// writes back the cells they all agree on, and returns the perpendicular
    /// lines whose cells changed. `None` when the line has no candidate, and
    /// the board is then left as it was.
    pub fn solve_line(&mut self, selection: Selection) -> (r: Option<Vec<Selection>>)
        requires
            old(self).wf(),
            old(self).valid(selection),
        ensures
            final(self).wf(),
            final(self).row_clues() == old(self).row_clues(),
            final(self).column_clues() == old(self).column_clues(),
            grid_refines(final(self).grid(), old(self).grid()),
            (r is None) <==> (forall|c: Seq<GridState>|
                !#[trigger] is_candidate(
                    c,
                    old(self).line(selection),
                    clue_view(old(self).clue_of(selection)),
                )),
            r is None ==> final(self).grid() == old(self).grid(),
            r is Some ==> final(self).grid() == written(
                old(self).grid(),
                selection,
                final(self).line(selection),
            ),
            r is Some ==> stable(final(self).line(selection), clue_view(old(self).clue_of(selection))),
            r is Some ==> forall|c: Seq<GridState>|
                #[trigger] is_candidate(
                    c,
                    old(self).line(selection),
                    clue_view(old(self).clue_of(selection)),
                ) ==> refines(c, final(self).line(selection)),
            r is Some ==> forall|i: int|
                0 <= i < old(self).line(selection).len() && #[trigger] agree_at(
                    old(self).line(selection),
                    clue_view(old(self).clue_of(selection)),
                    i,
                ) ==> final(self).line(selection)[i].is_known(),
            r is Some ==> forall|j: int|
                0 <= j < r->0@.len() ==> {
                    &&& final(self).valid(#[trigger] r->0@[j])
                    &&& r->0@[j].orientation == selection.orientation.inverted()
                    &&& 0 <= r->0@[j].index < old(self).line(selection).len()
                    &&& old(self).line(selection)[r->0@[j].index as int] != final(self).line(
                        selection,
                    )[r->0@[j].index as int]
                },
            r is Some ==> forall|i: int|
                0 <= i < old(self).line(selection).len() && old(self).line(selection)[i]
                    != final(self).line(selection)[i] ==> exists|j: int|
                    0 <= j < r->0@.len() && (#[trigger] r->0@[j]).index == i,
            forall|h: Seq<Seq<GridState>>|
                #[trigger] old(self).is_fixpoint_grid(h) && grid_refines(h, old(self).grid()) ==> (
                r is Some && grid_refines(h, final(self).grid())),
            forall|sol: Seq<Seq<GridState>>|
                #[trigger] old(self).is_solution(sol) && grid_refines(sol, old(self).grid()) ==> (
                r is Some && grid_refines(sol, final(self).grid())),
    {
        let clue = self.get_segments(selection);
        let line = self.extract_slice(selection);
        let cands = enumerate(&line, &clue);
        if cands.len() == 0 {
            proof {
                assert forall|h: Seq<Seq<GridState>>|
                    #[trigger] self.is_fixpoint_grid(h) && grid_refines(h, self.grid()) implies false by {
                    let lh = line_of(h, selection);
                    let cl = clue_view(clue@);
                    assert(stable(lh, cl));
                    self.lemma_line_refines(h, selection);
                    let ch = choose|c: Seq<GridState>| #[trigger] is_candidate(c, lh, cl);
                    lemma_refines_trans(line.states@, lh, ch);
                    assert(is_candidate(ch, line.states@, cl));
                    assert(found(cands@, ch));
                }
                assert forall|sol: Seq<Seq<GridState>>|
                    #[trigger] self.is_solution(sol) && grid_refines(sol, self.grid()) implies false by {
                    self.lemma_solution_line(sol, selection);
                    assert(found(cands@, line_of(sol, selection)));
                }
                assert forall|c: Seq<GridState>|
                    !#[trigger] is_candidate(c, line.states@, clue_view(clue@)) by {
                    if is_candidate(c, line.states@, clue_view(clue@)) {
                        assert(found(cands@, c));
                    }
                }
            }
            return None;
        }
        let mut acc: Option<Slice> = None;
        let mut i: usize = 0;
        while i < cands.len()
            invariant
                all_candidates(cands@, line, clue@),
                0 <= i <= cands.len(),
                i == 0 ==> acc is None,
                i > 0 ==> acc is Some && acc->0.selection == selection && refines(
                    acc->0.states@,
                    line.states@,
                ) && all_cells(acc->0.states@),
                i > 0 ==> forall|j: int|
                    0 <= j < i ==> refines(#[trigger] cands@[j].states@, acc->0.states@),
                i > 0 ==> forall|x: int|
                    0 <= x < line.states@.len() && (forall|j: int|
                        0 <= j < i ==> (#[trigger] cands@[j].states@[x]) == cands@[0].states@[x])
                        ==> (#[trigger] acc->0.states@[x]) == cands@[0].states@[x],
                line.selection == selection,
            decreases cands.len() - i,
        {
            let c = cands[i].snapshot();
            assert(refines(c.states@, line.states@));
            let ghost prev = acc;
            acc = Slice::merge(acc, c);
            proof {
                if i > 0 {
                    let a = prev->0.states@;
                    let m = acc->0.states@;
                    assert(m == merged(a, c.states@));
                    assert forall|k: int| 0 <= k < line.states@.len() && (#[trigger] line.states@[k]).is_known()
                        implies m[k] == line.states@[k] by {
                        assert(c.states@[k] == line.states@[k]);
                    }
                    assert forall|k: int| 0 <= k < m.len() implies (#[trigger] m[k]).is_cell() by {
                        assert(a[k].is_cell());
                    }
                    assert forall|x: int|
                        0 <= x < line.states@.len() && (forall|j: int|
                            0 <= j < i + 1 ==> (#[trigger] cands@[j].states@[x]) == cands@[0].states@[x])
                        implies (#[trigger] m[x]) == cands@[0].states@[x] by {
                        assert(cands@[i as int].states@[x] == cands@[0].states@[x]);
                        assert(c.states@ == cands@[i as int].states@);
                        assert forall|j: int| 0 <= j < i implies (#[trigger] cands@[j].states@[x])
                            == cands@[0].states@[x] by {}
                    }
                    assert forall|j: int| 0 <= j < i + 1 implies refines(#[trigger] cands@[j].states@, m) by {
                        if j < i {
                            assert(refines(cands@[j].states@, a));
                            assert forall|x: int| 0 <= x < m.len() && (#[trigger] m[x]).is_known()
                                implies cands@[j].states@[x] == m[x] by {
                                assert(a[x] == m[x]);
                            }
                        } else {
                            assert(cands@[j].states@ == c.states@);
                        }
                    }
                } else {
                    assert forall|k: int| 0 <= k < c.states@.len() implies (#[trigger] c.states@[k]).is_cell() by {
                        assert(c.states@[k].is_known());
                    }
                    assert(cands@[0].states@ == c.states@);
                }
            }
            i += 1;
        }
        let merged_line = match acc {
            Some(s) => s,
            None => {
                return None;
            },
        };
        let after = merged_line.snapshot();
        let updates = Slice::get_updates(line, after);
        let ghost g = self.grid();
        let ghost ms = merged_line.states@;
        self.apply_slice(merged_line);
        proof {
            let idx = selection.index as int;
            match selection.orientation {
                Orientation::Row => {
                    assert(self.line(selection) == ms);
                    assert forall|k: int| 0 <= k < g.len() implies refines(#[trigger] self.grid()[k], g[k]) by {
                        if k == idx {
                            assert(self.grid()[k] == ms);
                        } else {
                            assert(self.grid()[k] == g[k]);
                        }
                    }
                },
                Orientation::Column => {
                    assert(self.line(selection) =~= ms);
                    assert forall|k: int| 0 <= k < g.len() implies refines(#[trigger] self.grid()[k], g[k]) by {
                        assert(self.grid()[k] == g[k].update(idx, ms[k]));
                        assert(line_of(g, selection)[k] == g[k][idx]);
                        assert forall|x: int| 0 <= x < g[k].len() && (#[trigger] g[k][x]).is_known()
                            implies self.grid()[k][x] == g[k][x] by {
                            if x == idx {
                                assert(ms[k] == g[k][idx]);
                            }
                        }
                    }
                },
            }
        }
        proof {
            assert forall|c: Seq<GridState>|
                #[trigger] is_candidate(c, line.states@, clue_view(clue@)) implies refines(
                    c,
                    self.line(selection),
                ) by {
                assert(found(cands@, c));
                let j = choose|j: int| 0 <= j < cands@.len() && (#[trigger] cands@[j]).states@ == c;
                assert(refines(cands@[j].states@, ms));
            }
            let cl = clue_view(clue@);
            assert forall|x: int|
                0 <= x < line.states@.len() && #[trigger] agree_at(line.states@, cl, x) implies self.line(
                    selection,
                )[x].is_known() by {
                let c0 = cands@[0].states@;
                assert(is_candidate(c0, line.states@, cl));
                assert forall|j: int| 0 <= j < cands@.len() implies (#[trigger] cands@[j].states@[x])
                    == c0[x] by {
                    assert(is_candidate(cands@[j].states@, line.states@, cl));
                }
                assert(ms[x] == c0[x]);
                assert(c0[x].is_known());
            }
            assert forall|sol: Seq<Seq<GridState>>|
                #[trigger] old(self).is_solution(sol) && grid_refines(sol, g) implies grid_refines(
                    sol,
                    self.grid(),
                ) by {
                old(self).lemma_solution_line(sol, selection);
                let l = line_of(sol, selection);
                assert(refines(l, ms));
                let idx = selection.index as int;
                assert forall|k: int| 0 <= k < g.len() implies refines(#[trigger] sol[k], self.grid()[k]) by {
                    assert(refines(sol[k], g[k]));
                    match selection.orientation {
                        Orientation::Row => {
                            if k == idx {
                                assert(self.grid()[k] == ms);
                            } else {
                                assert(self.grid()[k] == g[k]);
                            }
                        },
                        Orientation::Column => {
                            assert(self.grid()[k] == g[k].update(idx, ms[k]));
                            assert(l[k] == sol[k][idx]);
                            assert forall|x: int| 0 <= x < self.grid()[k].len() && (#[trigger] self.grid()[k][x]).is_known()
                                implies sol[k][x] == self.grid()[k][x] by {
                                if x != idx {
                                    assert(self.grid()[k][x] == g[k][x]);
                                }
                            }
                        },
                    }
                }
            }
        }
        proof {
            let cl = clue_view(clue@);
            let c0 = cands@[0].states@;
            assert(refines(c0, ms));
            assert(is_candidate(c0, ms, cl));
            assert forall|c: Seq<GridState>| #[trigger] is_candidate(c, line.states@, cl) implies is_candidate(c, ms, cl) by {}
            assert forall|x: int| 0 <= x < ms.len() && #[trigger] agree_at(ms, cl, x) implies ms[x].is_known() by {
                assert forall|c1: Seq<GridState>, c2: Seq<GridState>|
                    #[trigger] is_candidate(c1, line.states@, cl) && #[trigger] is_candidate(c2, line.states@, cl)
                    implies c1[x] == c2[x] by {
                    assert(is_candidate(c1, ms, cl));
                    assert(is_candidate(c2, ms, cl));
                }
                assert(agree_at(line.states@, cl, x));
            }
            assert(stable(ms, cl));
            assert forall|h: Seq<Seq<GridState>>|
                #[trigger] old(self).is_fixpoint_grid(h) && grid_refines(h, g) implies grid_refines(
                    h,
                    self.grid(),
                ) by {
                let lh = line_of(h, selection);
                assert(stable(lh, cl));
                old(self).lemma_line_refines(h, selection);
                let ch = choose|c: Seq<GridState>| #[trigger] is_candidate(c, lh, cl);
                assert forall|c: Seq<GridState>| #[trigger] is_candidate(c, lh, cl) implies is_candidate(
                    c,
                    line.states@,
                    cl,
                ) by {
                    lemma_refines_trans(line.states@, lh, c);
                }
                assert(is_candidate(ch, line.states@, cl));
                assert(refines(ch, ms));
                assert forall|p: int| 0 <= p < ms.len() && (#[trigger] ms[p]).is_known() implies lh[p] == ms[p] by {
                    assert forall|c1: Seq<GridState>, c2: Seq<GridState>|
                        #[trigger] is_candidate(c1, lh, cl) && #[trigger] is_candidate(c2, lh, cl)
                        implies c1[p] == c2[p] by {
                        assert(is_candidate(c1, line.states@, cl));
                        assert(is_candidate(c2, line.states@, cl));
                        assert(refines(c1, ms));
                        assert(refines(c2, ms));
                    }
                    assert(agree_at(lh, cl, p));
                    assert(lh[p].is_known());
                }
                old(self).lemma_written_refined(h, selection, ms);
            }
        }
        Some(updates)
    }

    /// Runs line propagation to a fixpoint, starting from every row and every
    /// column (rows first when `rows_first`, else columns first), and
    /// re-examining a line whenever one of its cells changes, until no line
    /// waits. Unless a line turns out to have no candidate, the result is the
    /// least fixpoint above the starting grid, whatever the order.
    pub fn run_to_fixpoint_ordered(&mut self, rows_first: bool) -> (r: Outcome)
        requires
            old(self).wf(),
        ensures
            final(self).wf(),
            final(self).row_clues() == old(self).row_clues(),
            final(self).column_clues() == old(self).column_clues(),
            grid_refines(final(self).grid(), old(self).grid()),
            r != Outcome::Contradiction ==> (r == Outcome::Solved <==> final(self).solved()),
            r != Outcome::Contradiction ==> final(self).is_least_fixpoint(
                old(self).grid(),
                final(self).grid(),
            ),
            r == Outcome::Contradiction ==> exists|sel: Selection|
                final(self).valid(sel) && forall|c: Seq<GridState>|
                    !#[trigger] is_candidate(
                        c,
                        final(self).line(sel),
                        clue_view(final(self).clue_of(sel)),
                    ),
            r == Outcome::Contradiction ==> forall|h: Seq<Seq<GridState>>|
                !(#[trigger] old(self).is_fixpoint_grid(h) && grid_refines(h, old(self).grid())),
            forall|sol: Seq<Seq<GridState>>|
                #[trigger] old(self).is_solution(sol) && grid_refines(sol, old(self).grid()) ==> (r
                    != Outcome::Contradiction && grid_refines(sol, final(self).grid())),
    {
        let n = self.rows.len();
        let m = self.columns.len();
        let mut queue: Vec<Selection> = Vec::new();
        if rows_first {
            enqueue_all(&mut queue, Orientation::Row, n);
            enqueue_all(&mut queue, Orientation::Column, m);
        } else {
            enqueue_all(&mut queue, Orientation::Column, m);
            enqueue_all(&mut queue, Orientation::Row, n);
        }
        let mut row_pending = filled_flags(n, true);
        let mut col_pending = filled_flags(m, true);
        proof {
            lemma_grid_refines_refl(self.grid());
            assert forall|sel: Selection| self.valid(sel) && is_pending(row_pending@, col_pending@, sel)
                implies exists|q: int| 0 <= q < queue@.len() && #[trigger] queue@[q] == sel by {
                let i = sel.index as int;
                let q = match (sel.orientation, rows_first) {
                    (Orientation::Row, true) => i,
                    (Orientation::Column, true) => n + i,
                    (Orientation::Column, false) => i,
                    (Orientation::Row, false) => m + i,
                };
                assert(queue@[q] == sel);
            }
            assert forall|k: int| 0 <= k < queue@.len() implies self.valid(#[trigger] queue@[k]) by {
            }
        }
        let mut head: usize = 0;
        while head < queue.len()
            invariant
                self.wf(),
                self.row_clues() == old(self).row_clues(),
                self.column_clues() == old(self).column_clues(),
                grid_refines(self.grid(), old(self).grid()),
                n == self.height(),
                m == self.width(),
                row_pending@.len() == n,
                col_pending@.len() == m,
                head <= queue@.len(),
                forall|k: int| 0 <= k < queue@.len() ==> self.valid(#[trigger] queue@[k]),
                forall|sol: Seq<Seq<GridState>>|
                    #[trigger] old(self).is_solution(sol) && grid_refines(sol, old(self).grid())
                        ==> grid_refines(sol, self.grid()),
                forall|h: Seq<Seq<GridState>>|
                    #[trigger] old(self).is_fixpoint_grid(h) && grid_refines(h, old(self).grid())
                        ==> grid_refines(h, self.grid()),
                forall|sel: Selection|
                    self.valid(sel) && !is_pending(row_pending@, col_pending@, sel)
                        ==> #[trigger] self.line_stable(sel),
                forall|sel: Selection|
                    self.valid(sel) && is_pending(row_pending@, col_pending@, sel) ==> exists|q: int|
                        head <= q < queue@.len() && #[trigger] queue@[q] == sel,
            decreases unknowns(self.grid()), queue@.len() - head,
        {
            let sel = queue[head];
            let ghost pre: Board = *self;
            let ghost q0 = queue@;
            let ghost rp0 = row_pending@;
            let ghost cp0 = col_pending@;
            let ghost h0 = head as int;
            head += 1;
            match sel.orientation {
                Orientation::Row => {
                    row_pending[sel.index as usize] = false;
                },
                Orientation::Column => {
                    col_pending[sel.index as usize] = false;
                },
            }
            let ghost rp1 = row_pending@;
            let ghost cp1 = col_pending@;
            proof {
                assert(!is_pending(rp1, cp1, sel));
                assert forall|s2: Selection| pre.valid(s2) && s2 != sel implies is_pending(rp1, cp1, s2)
                    == is_pending(rp0, cp0, s2) by {}
                assert forall|s2: Selection| pre.valid(s2) && is_pending(rp1, cp1, s2) implies exists|q: int|
                    head <= q < queue@.len() && #[trigger] queue@[q] == s2 by {
                    assert(is_pending(rp0, cp0, s2));
                    let q = choose|q: int| h0 <= q < q0.len() && #[trigger] q0[q] == s2;
                    assert(q != h0);
                }
            }
            match self.solve_line(sel) {
                None => {
                    proof {
                        assert(pre.line(sel) == self.line(sel));
                        assert forall|h: Seq<Seq<GridState>>|
                            !(#[trigger] old(self).is_fixpoint_grid(h) && grid_refines(h, old(self).grid())) by {
                            if old(self).is_fixpoint_grid(h) && grid_refines(h, old(self).grid()) {
                                old(self).lemma_fixpoint_same_clues(pre, h);
                            }
                        }
                        assert forall|sol: Seq<Seq<GridState>>|
                            #[trigger] old(self).is_solution(sol) && grid_refines(sol, old(self).grid())
                            implies false by {
                            assert(pre.is_solution(sol));
                        }
                    }
                    proof {
                        assert(self.clue_of(sel) == pre.clue_of(sel));
                        assert(forall|c: Seq<GridState>|
                            !#[trigger] is_candidate(c, self.line(sel), clue_view(self.clue_of(sel))));
                        assert(self.valid(sel));
                    }
                    return Outcome::Contradiction;
                },
                Some(updates) => {
                    let ghost ms = self.line(sel);
                    proof {
                        lemma_grid_refines_trans(old(self).grid(), pre.grid(), self.grid());
                        assert forall|sol: Seq<Seq<GridState>>|
                            #[trigger] old(self).is_solution(sol) && grid_refines(sol, old(self).grid())
                            implies grid_refines(sol, self.grid()) by {
                            assert(pre.is_solution(sol));
                        }
                        assert forall|h: Seq<Seq<GridState>>|
                            #[trigger] old(self).is_fixpoint_grid(h) && grid_refines(h, old(self).grid())
                            implies grid_refines(h, self.grid()) by {
                            old(self).lemma_fixpoint_same_clues(pre, h);
                        }
                        assert forall|s2: Selection|
                            self.valid(s2) && is_pending(row_pending@, col_pending@, s2) implies exists|q: int|
                            head <= q < queue@.len() && #[trigger] queue@[q] == s2 by {
                            assert(pre.valid(s2));
                        }
                    }
                    let mut k: usize = 0;
                    while k < updates.len()
                        invariant
                            0 <= k <= updates.len(),
                            forall|j: int|
                                0 <= j < updates@.len() ==> self.valid(#[trigger] updates@[j]),
                            n == self.height(),
                            m == self.width(),
                            row_pending@.len() == n,
                            col_pending@.len() == m,
                            head <= q0.len() <= queue@.len(),
                            k == 0 ==> queue@ == q0,
                            forall|j: int| 0 <= j < q0.len() ==> #[trigger] queue@[j] == q0[j],
                            forall|j: int| 0 <= j < queue@.len() ==> self.valid(#[trigger] queue@[j]),
                            forall|j: int|
                                0 <= j < k ==> is_pending(row_pending@, col_pending@, #[trigger] updates@[j]),
                            forall|s2: Selection|
                                self.valid(s2) && is_pending(rp1, cp1, s2) ==> is_pending(row_pending@, col_pending@, s2),
                            forall|s2: Selection|
                                self.valid(s2) && !is_pending(row_pending@, col_pending@, s2) ==> !is_pending(rp1, cp1, s2),
                            forall|s2: Selection|
                                self.valid(s2) && is_pending(row_pending@, col_pending@, s2) ==> exists|q: int|
                                    head <= q < queue@.len() && #[trigger] queue@[q] == s2,
                        decreases updates.len() - k,
                    {
                        let u = updates[k];
                        let ghost qa = queue@;
                        let ghost rpa = row_pending@;
                        let ghost cpa = col_pending@;
                        let idx = u.index as usize;
                        match u.orientation {
                            Orientation::Row => {
                                if !row_pending[idx] {
                                    row_pending[idx] = true;
                                    queue.push(u);
                                }
                            },
                            Orientation::Column => {
                                if !col_pending[idx] {
                                    col_pending[idx] = true;
                                    queue.push(u);
                                }
                            },
                        }
                        proof {
                            assert forall|s2: Selection| self.valid(s2) && s2 != u implies is_pending(
                                row_pending@,
                                col_pending@,
                                s2,
                            ) == is_pending(rpa, cpa, s2) by {
                                if s2.orientation == u.orientation {
                                    assert(s2.index != u.index);
                                }
                            }
                            assert forall|j: int| 0 <= j < k + 1 implies is_pending(
                                row_pending@,
                                col_pending@,
                                #[trigger] updates@[j],
                            ) by {
                                if j < k && updates@[j] != u {
                                    assert(is_pending(rpa, cpa, updates@[j]));
                                }
                            }
                            assert forall|s2: Selection|
                                self.valid(s2) && is_pending(row_pending@, col_pending@, s2) implies exists|q: int|
                                head <= q < queue@.len() && #[trigger] queue@[q] == s2 by {
                                if s2 != u || is_pending(rpa, cpa, u) {
                                    assert(is_pending(rpa, cpa, s2));
                                    let q = choose|q: int| head <= q < qa.len() && #[trigger] qa[q] == s2;
                                    assert(queue@[q] == qa[q]);
                                } else {
                                    assert(queue@[queue@.len() - 1] == s2);
                                }
                            }
                            assert forall|j: int| 0 <= j < queue@.len() implies self.valid(#[trigger] queue@[j]) by {
                                if j < qa.len() {
                                    assert(queue@[j] == qa[j]);
                                }
                            }
                        }
                        k += 1;
                    }
                    proof {
                        assert forall|s2: Selection|
                            self.valid(s2) && !is_pending(row_pending@, col_pending@, s2) implies #[trigger] self.line_stable(s2) by {
                            if s2 != sel {
                                assert(!is_pending(rp0, cp0, s2));
                                assert(pre.line_stable(s2));
                                if s2.orientation != sel.orientation {
                                    let c = s2.index as int;
                                    if ms[c] != pre.line(sel)[c] {
                                        let j = choose|j: int| 0 <= j < updates@.len() && (#[trigger] updates@[j]).index == c;
                                        assert(updates@[j] == s2);
                                    }
                                }
                                pre.lemma_other_line_kept(sel, ms, s2);
                            }
                        }
                        if self.grid() == pre.grid() {
                            if updates@.len() > 0 {
                                let u0 = updates@[0];
                                assert(pre.line(sel) == self.line(sel));
                            }
                            assert(queue@ == q0);
                        } else {
                            assert forall|i: int| 0 <= i < pre.grid().len() implies all_cells(#[trigger] pre.grid()[i]) by {}
                            lemma_unknowns_le(self.grid(), pre.grid());
                        }
                    }
                },
            }
        }
        proof {
            assert forall|sel: Selection| self.valid(sel) implies #[trigger] stable(
                line_of(self.grid(), sel),
                clue_view(self.clue_of(sel)),
            ) by {
                if is_pending(row_pending@, col_pending@, sel) {
                    let q = choose|q: int| head <= q < queue@.len() && #[trigger] queue@[q] == sel;
                }
                assert(self.line_stable(sel));
            }
            assert(self.is_fixpoint_grid(self.grid()));
            assert forall|h: Seq<Seq<GridState>>|
                #[trigger] self.is_fixpoint_grid(h) && grid_refines(h, old(self).grid()) implies grid_refines(h, self.grid()) by {
                self.lemma_fixpoint_same_clues(*old(self), h);
            }
        }
        if self.is_solved() && self.clues_met() {
            Outcome::Solved
        } else {
            Outcome::Stalled
        }
    }

    /// Runs line propagation to a fixpoint, rows first.
    pub fn run_to_fixpoint(&mut self) -> (r: Outcome)
        requires
            old(self).wf(),
        ensures
            final(self).wf(),
            final(self).row_clues() == old(self).row_clues(),
            final(self).column_clues() == old(self).column_clues(),
            grid_refines(final(self).grid(), old(self).grid()),
            r != Outcome::Contradiction ==> (r == Outcome::Solved <==> final(self).solved()),
            r != Outcome::Contradiction ==> final(self).is_least_fixpoint(
                old(self).grid(),
                final(self).grid(),
            ),
            r == Outcome::Contradiction ==> exists|sel: Selection|
                final(self).valid(sel) && forall|c: Seq<GridState>|
                    !#[trigger] is_candidate(
                        c,
                        final(self).line(sel),
                        clue_view(final(self).clue_of(sel)),
                    ),
            r == Outcome::Contradiction ==> forall|h: Seq<Seq<GridState>>|
                !(#[trigger] old(self).is_fixpoint_grid(h) && grid_refines(h, old(self).grid())),
            forall|sol: Seq<Seq<GridState>>|
                #[trigger] old(self).is_solution(sol) && grid_refines(sol, old(self).grid()) ==> (r
                    != Outcome::Contradiction && grid_refines(sol, final(self).grid())),
    {
        self.run_to_fixpoint_ordered(true)
    }
}

} // verus!
