use vstd::prelude::*;

use crate::slice::{
    all_cells, cell_at, clue_view, complete, fits, lemma_decompose, lemma_next_filled,
    lemma_next_filled_at,
    lemma_run_end, lemma_scan_positive, next_filled, normalized, refines, run_end, runs,
    segments_of, Slice, MAX_EXTENT,
};
use crate::state::GridState;

verus! {

/// `c` is a candidate filling of a line whose current states are `base`:
/// every cell is decided, every confirmed cell of `base` is kept, and the
/// filled runs are exactly the clue.
pub open spec fn is_candidate(c: Seq<GridState>, base: Seq<GridState>, clue: Seq<int>) -> bool {
    &&& complete(c)
    &&& refines(c, base)
    &&& segments_of(c) == normalized(clue)
}

/// Every line of `out` is a candidate for `line` under `clue`.
pub open spec fn all_candidates(out: Seq<Slice>, line: Slice, clue: Seq<i32>) -> bool {
    forall|j: int|
        0 <= j < out.len() ==> (#[trigger] out[j]).selection == line.selection && is_candidate(
            out[j].states@,
            line.states@,
            clue_view(clue),
        )
}

/// All candidate fillings of a line `base` under `clue`.
pub open spec fn candidate_set(base: Seq<GridState>, clue: Seq<int>) -> Set<Seq<GridState>> {
    Set::new(|c: Seq<GridState>| is_candidate(c, base, clue))
}

/// No two lines of `out` from index `from` on hold the same states.
pub open spec fn distinct_from(out: Seq<Slice>, from: int) -> bool {
    forall|a: int, b: int|
        from <= a < b < out.len() ==> (#[trigger] out[a]).states@ != (#[trigger] out[b]).states@
}

/// Some line of `out` holds exactly the states `c`.
pub open spec fn found(out: Seq<Slice>, c: Seq<GridState>) -> bool {
    exists|j: int| 0 <= j < out.len() && (#[trigger] out[j]).states@ == c
}

/// `c` is a candidate for `line` under `clue` that the search state
/// (`work`, segments `k..count` left, next segment at `pos` or later) can
/// still reach: before `pos` its filled cells are those of `work`, and from
/// `pos` on its runs are the segments left.
pub open spec fn reachable(
    c: Seq<GridState>,
    line: Seq<GridState>,
    work: Seq<GridState>,
    clue: Seq<int>,
    count: int,
    k: int,
    pos: int,
) -> bool {
    let n = line.len() as int;
    let lo = if pos <= n {
        pos
    } else {
        n
    };
    &&& is_candidate(c, line, clue)
    &&& forall|i: int|
        0 <= i < lo ==> (#[trigger] c[i] == GridState::Filled <==> work[i] == GridState::Filled)
    &&& runs(c.subrange(lo, n)) == clue.subrange(k, count)
}

/// Where a reachable candidate puts segment `k`: on the first filled cell at
/// or after `pos`, for exactly `clue[k]` cells.
proof fn lemma_reachable_shape(
    c: Seq<GridState>,
    line: Seq<GridState>,
    work: Seq<GridState>,
    clue: Seq<int>,
    count: int,
    k: int,
    pos: int,
)
    requires
        0 <= k < count <= clue.len(),
        0 <= pos,
        reachable(c, line, work, clue, count, k, pos),
    ensures
        ({
            let n = line.len() as int;
            let s = next_filled(c, pos);
            let e = run_end(c, s);
            let rest = if e + 1 <= n {
                e + 1
            } else {
                n
            };
            &&& pos <= s < e <= n
            &&& e - s == clue[k]
            &&& runs(c.subrange(rest, n)) == clue.subrange(k + 1, count)
            &&& forall|j: int| pos <= j < s ==> c[j] != GridState::Filled
            &&& forall|j: int| s <= j < e ==> c[j] == GridState::Filled
            &&& e < n ==> c[e] != GridState::Filled
        }),
{
    let n = line.len() as int;
    assert(clue.subrange(k, count).len() > 0);
    if pos > n {
        lemma_decompose(c, n);
        lemma_next_filled(c, n);
        assert(false);
    }
    lemma_decompose(c, pos);
    lemma_next_filled(c, pos);
    let s = next_filled(c, pos);
    lemma_run_end(c, s);
    let e = run_end(c, s);
    let rest = if e + 1 <= n {
        e + 1
    } else {
        n
    };
    let r = runs(c.subrange(rest, n));
    assert((seq![e - s] + r)[0] == e - s);
    assert(clue.subrange(k, count)[0] == clue[k]);
    assert((seq![e - s] + r).subrange(1, 1 + r.len() as int) =~= r);
    assert(clue.subrange(k, count).subrange(1, count - k) =~= clue.subrange(k + 1, count));
}

/// Whether the filled runs of `c` are exactly `clue`, taking the empty clue
/// and `[0]` alike.
pub fn matches_clue(c: &Slice, clue: &Vec<i32>) -> (r: bool)
    requires
        c.states.len() <= MAX_EXTENT,
    ensures
        r == (segments_of(c.states@) == normalized(clue_view(clue@))),
{
    let segs = c.get_segments();
    if clue.len() == 0 {
        let r = segs.len() == 1 && segs[0] == 0;
        assert(r ==> clue_view(segs@) =~= seq![0int]);
        assert(!r ==> clue_view(segs@).len() != 1 || clue_view(segs@)[0] != 0);
        return r;
    }
    if segs.len() != clue.len() {
        assert(clue_view(segs@).len() != clue_view(clue@).len());
        return false;
    }
    let mut i: usize = 0;
    while i < clue.len()
        invariant
            0 <= i <= clue.len(),
            segs.len() == clue.len(),
            clue.len() > 0,
            clue_view(segs@) == segments_of(c.states@),
            forall|k: int| 0 <= k < i ==> segs@[k] == clue@[k],
        decreases clue.len() - i,
    {
        if segs[i] != clue[i] {
            assert(clue_view(segs@)[i as int] == segs@[i as int] as int);
            assert(clue_view(clue@)[i as int] == clue@[i as int] as int);
            assert(normalized(clue_view(clue@)) == clue_view(clue@));
            assert(clue_view(segs@) != normalized(clue_view(clue@)));
            return false;
        }
        i += 1;
    }
    assert(clue_view(segs@) =~= clue_view(clue@));
    true
}

/// Places segments `k..count` of `clue` on `work` from position `pos` on, in
/// every way that fits, and adds each completed filling that is a candidate
/// for `line` to `out`.
fn search(
    line: &Slice,
    work: &Slice,
    clue: &Vec<i32>,
    count: usize,
    k: usize,
    pos: i32,
    out: &mut Vec<Slice>,
)
    requires
        k <= count <= clue.len(),
        work.states.len() == line.states.len(),
        line.states.len() <= MAX_EXTENT,
        work.selection == line.selection,
        all_cells(line.states@),
        0 <= pos <= line.states.len() + 1,
        forall|i: int| pos <= i < line.states@.len() ==> #[trigger] work.states@[i] == line.states@[i],
        0 < pos <= line.states.len() ==> work.states@[pos - 1] == GridState::Empty,
        all_candidates(old(out)@, *line, clue@),
    ensures
        all_candidates(final(out)@, *line, clue@),
        final(out)@.len() >= old(out)@.len(),
        forall|j: int| 0 <= j < old(out)@.len() ==> #[trigger] final(out)@[j] == old(out)@[j],
        distinct_from(final(out)@, old(out)@.len() as int),
        forall|j: int, i: int|
            old(out)@.len() <= j < final(out)@.len() && 0 <= i < pos && i < line.states@.len() ==> (
            (#[trigger] final(out)@[j].states@[i] == GridState::Filled) <==> work.states@[i]
                == GridState::Filled),
        forall|c: Seq<GridState>|
            #[trigger] reachable(
                c,
                line.states@,
                work.states@,
                clue_view(clue@),
                count as int,
                k as int,
                pos as int,
            ) ==> found(final(out)@, c),
    decreases count - k,
{
    let ghost out0 = out@;
    let ghost cl = clue_view(clue@);
    let ghost ln = line.states@;
    let ghost n0 = ln.len() as int;
    if k == count {
        let cand = work.finalize();
        if matches_clue(&cand, clue) && cand.refines(line) {
            out.push(cand);
        }
        proof {
            assert(distinct_from(out@, out0.len() as int));
            assert forall|c: Seq<GridState>|
                #[trigger] reachable(c, ln, work.states@, cl, count as int, k as int, pos as int)
                implies found(out@, c) by {
                let lo = if pos <= n0 {
                    pos as int
                } else {
                    n0
                };
                lemma_decompose(c, lo);
                lemma_next_filled(c, lo);
                assert(cl.subrange(k as int, count as int).len() == 0);
                assert forall|i: int| 0 <= i < n0 implies cand.states@[i] == c[i] by {
                    assert(c[i].is_known());
                    if i >= lo {
                        assert(c[i] != GridState::Filled);
                        assert(work.states@[i] == ln[i]);
                    }
                }
                assert(cand.states@ =~= c);
                assert(out@[out@.len() - 1].states@ == c);
            }
        }
        return;
    }
    let n: i32 = line.states.len() as i32;
    let length: i32 = clue[k];
    if length <= 0 || length > n {
        proof {
            assert forall|c: Seq<GridState>|
                #[trigger] reachable(c, ln, work.states@, cl, count as int, k as int, pos as int)
                implies found(out@, c) by {
                lemma_reachable_shape(c, ln, work.states@, cl, count as int, k as int, pos as int);
            }
        }
        return;
    }
    let mut start: i32 = pos;
    let mut stop = false;
    proof {
        assert forall|c: Seq<GridState>|
            #[trigger] reachable(c, ln, work.states@, cl, count as int, k as int, pos as int)
                && next_filled(c, pos as int) < start implies found(out@, c) by {
            if pos <= c.len() {
                lemma_next_filled(c, pos as int);
            }
        }
    }
    while !stop && start <= n - length
        invariant
            0 <= pos <= start,
            1 <= length <= n,
            n == line.states.len(),
            n <= MAX_EXTENT,
            work.states.len() == n,
            work.selection == line.selection,
            all_cells(line.states@),
            k < count <= clue.len(),
            all_candidates(out@, *line, clue@),
            forall|i: int| pos <= i < n ==> #[trigger] work.states@[i] == line.states@[i],
            0 < pos <= n ==> work.states@[pos - 1] == GridState::Empty,
            cl == clue_view(clue@),
            ln == line.states@,
            n0 == n,
            length == cl[k as int],
            out@.len() >= out0.len(),
            forall|j: int| 0 <= j < out0.len() ==> #[trigger] out@[j] == out0[j],
            stop ==> pos <= start - 1 < n && work.states@[start - 1] == GridState::Filled,
            forall|i: int| pos <= i < start && !(stop && i == start - 1) ==> work.states@[i] != GridState::Filled,
            distinct_from(out@, out0.len() as int),
            forall|j: int|
                out0.len() <= j < out@.len() ==> pos <= #[trigger] next_filled(out@[j].states@, pos as int) < start,
            forall|j: int, i: int|
                out0.len() <= j < out@.len() && 0 <= i < pos && i < n ==> ((
                #[trigger] out@[j].states@[i] == GridState::Filled) <==> work.states@[i]
                    == GridState::Filled),
            forall|c: Seq<GridState>|
                #[trigger] reachable(c, ln, work.states@, cl, count as int, k as int, pos as int)
                    && next_filled(c, pos as int) < start ==> found(out@, c),
        decreases n - start,
    {
        let ghost before = out@;
        if work.can_fit(start, length) {
            let next = work.place_segment(start, length);
            let ghost np = start + length + 1;
            proof {
                assert forall|i: int| np <= i < n implies #[trigger] next.states@[i] == line.states@[i] by {
                    assert(work.states@[i] == line.states@[i]);
                }
            }
            search(line, &next, clue, count, k + 1, start + length + 1, out);
            proof {
                assert forall|j: int| before.len() <= j < out@.len() implies #[trigger] next_filled(
                    out@[j].states@,
                    pos as int,
                ) == start && forall|i: int| 0 <= i < pos && i < n ==> ((
                #[trigger] out@[j].states@[i] == GridState::Filled) <==> work.states@[i]
                    == GridState::Filled) by {
                    let c = out@[j].states@;
                    assert(c.len() == n) by {
                        assert(all_candidates(out@, *line, clue@));
                        assert(refines(out@[j].states@, ln));
                    }
                    assert(c[start as int] == GridState::Filled <==> next.states@[start as int] == GridState::Filled);
                    assert forall|i: int| pos <= i < start implies c[i] != GridState::Filled by {
                        assert(c[i] == GridState::Filled <==> next.states@[i] == GridState::Filled);
                    }
                    lemma_next_filled_at(c, pos as int, start as int);
                    assert forall|i: int| 0 <= i < pos && i < n implies ((
                    #[trigger] c[i] == GridState::Filled) <==> work.states@[i]
                        == GridState::Filled) by {
                        assert(c[i] == GridState::Filled <==> next.states@[i] == GridState::Filled);
                    }
                }
                assert forall|a: int, b: int|
                    out0.len() <= a < b < out@.len() implies (#[trigger] out@[a]).states@ != (#[trigger] out@[b]).states@ by {
                    if a < before.len() && b >= before.len() {
                        assert(out@[a] == before[a]);
                        assert(next_filled(out@[a].states@, pos as int) < start);
                        assert(next_filled(out@[b].states@, pos as int) == start);
                    } else if b < before.len() {
                        assert(out@[a] == before[a]);
                        assert(out@[b] == before[b]);
                    }
                }
                assert forall|c: Seq<GridState>|
                    #[trigger] reachable(c, ln, work.states@, cl, count as int, k as int, pos as int)
                        && next_filled(c, pos as int) == start implies reachable(
                        c,
                        ln,
                        next.states@,
                        cl,
                        count as int,
                        (k + 1) as int,
                        np,
                    ) by {
                    lemma_reachable_shape(c, ln, work.states@, cl, count as int, k as int, pos as int);
                    let lo2 = if np <= n {
                        np
                    } else {
                        n as int
                    };
                    assert forall|i: int| 0 <= i < lo2 implies (#[trigger] c[i] == GridState::Filled
                        <==> next.states@[i] == GridState::Filled) by {
                        if i < pos {
                            assert(c[i] == GridState::Filled <==> work.states@[i] == GridState::Filled);
                        } else if i < start - 1 {
                            assert(work.states@[i] == ln[i]);
                            assert(c[i] != GridState::Filled);
                            assert(ln[i].is_known() ==> c[i] == ln[i]);
                        }
                    }
                }
            }
        } else {
            proof {
                assert forall|c: Seq<GridState>|
                    #[trigger] reachable(c, ln, work.states@, cl, count as int, k as int, pos as int)
                        implies next_filled(c, pos as int) != start by {
                    if next_filled(c, pos as int) == start {
                        lemma_reachable_shape(c, ln, work.states@, cl, count as int, k as int, pos as int);
                        let e = run_end(c, start as int);
                        if start - 1 >= pos {
                            assert(work.states@[start - 1] == ln[start - 1]);
                            assert(ln[start - 1].is_known() ==> c[start - 1] == ln[start - 1]);
                        }
                        assert forall|i: int| start <= i < start + length implies cell_at(work.states@, i)
                            != GridState::Empty && cell_at(work.states@, i) != GridState::OutOfBounds by {
                            assert(e == start + length);
                            assert(0 <= i < n);
                            assert(work.states@[i] == ln[i]);
                            assert(ln[i].is_cell());
                            assert(c[i] == GridState::Filled);
                            assert(ln[i].is_known() ==> c[i] == ln[i]);
                        }
                        if e < n {
                            assert(work.states@[e] == ln[e]);
                            assert(ln[e].is_known() ==> c[e] == ln[e]);
                        }
                        assert(fits(work.states@, start as int, length as int));
                    }
                }
            }
        }
        proof {
            assert forall|c: Seq<GridState>|
                #[trigger] reachable(c, ln, work.states@, cl, count as int, k as int, pos as int)
                    && next_filled(c, pos as int) < start + 1 implies found(out@, c) by {
                if next_filled(c, pos as int) < start {
                    let j = choose|j: int| 0 <= j < before.len() && (#[trigger] before[j]).states@ == c;
                    assert(out@[j] == before[j]);
                }
            }
        }
        if work.get(start) == GridState::Filled {
            // a later start would leave this filled cell outside every segment
            stop = true;
        }
        start += 1;
    }
    proof {
        assert forall|c: Seq<GridState>|
            #[trigger] reachable(c, ln, work.states@, cl, count as int, k as int, pos as int)
            implies found(out@, c) by {
            lemma_reachable_shape(c, ln, work.states@, cl, count as int, k as int, pos as int);
            if stop {
                assert(work.states@[start - 1] == ln[start - 1]);
                assert(ln[start - 1].is_known() ==> c[start - 1] == ln[start - 1]);
            }
        }
    }
}

/// Every filling of `line` that keeps its confirmed cells and whose filled
/// runs are `clue`, and nothing else. An empty result means the line cannot
/// be satisfied.
pub fn enumerate(line: &Slice, clue: &Vec<i32>) -> (r: Vec<Slice>)
    requires
        line.states.len() <= MAX_EXTENT,
        all_cells(line.states@),
    ensures
        all_candidates(r@, *line, clue@),
        forall|c: Seq<GridState>|
            is_candidate(c, line.states@, clue_view(clue@)) ==> #[trigger] found(r@, c),
        distinct_from(r@, 0),
        candidate_set(line.states@, clue_view(clue@)).finite(),
        r@.len() == candidate_set(line.states@, clue_view(clue@)).len(),
{
    let mut out: Vec<Slice> = Vec::new();
    let count = if clue.len() == 1 && clue[0] == 0 {
        0
    } else {
        clue.len()
    };
    let work = line.snapshot();
    search(line, &work, clue, count, 0, 0, &mut out);
    proof {
        let cl = clue_view(clue@);
        assert forall|c: Seq<GridState>|
            is_candidate(c, line.states@, cl) implies #[trigger] found(out@, c) by {
            lemma_scan_positive(c);
            assert(c.subrange(0, c.len() as int) =~= c);
            if runs(c).len() > 0 {
                assert(runs(c)[0] > 0);
            }
            if count == 0 {
                assert(runs(c).len() == 0);
                assert(runs(c) =~= cl.subrange(0, 0));
            } else {
                if runs(c).len() == 0 {
                    assert(cl =~= seq![0int]);
                    assert(cl[0] == clue@[0] as int);
                    assert(clue@.len() == 1 && clue@[0] == 0);
                }
                assert(cl.subrange(0, count as int) =~= cl);
            }
            assert(reachable(c, line.states@, work.states@, cl, count as int, 0, 0));
        }
        let st = out@.map_values(|x: Slice| x.states@);
        assert forall|a: int, b: int| 0 <= a < st.len() && 0 <= b < st.len() && a != b implies st[a]
            != st[b] by {
            if a < b {
                assert(out@[a].states@ != out@[b].states@);
            } else {
                assert(out@[b].states@ != out@[a].states@);
            }
        }
        assert(st.no_duplicates());
        st.unique_seq_to_set();
        assert forall|c: Seq<GridState>| st.to_set().contains(c) <==> candidate_set(
            line.states@,
            cl,
        ).contains(c) by {
            if is_candidate(c, line.states@, cl) {
                assert(found(out@, c));
                let j = choose|j: int| 0 <= j < out@.len() && (#[trigger] out@[j]).states@ == c;
                assert(st[j] == c);
            }
            if st.to_set().contains(c) {
                let j = choose|j: int| 0 <= j < st.len() && st[j] == c;
                assert(out@[j].states@ == c);
            }
        }
        assert(st.to_set() =~= candidate_set(line.states@, cl));
    }
    out
}

} // verus!
