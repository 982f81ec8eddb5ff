use nonogram::board::{Board, ClueError, Outcome};
use nonogram::enumerator::enumerate;
use nonogram::orientation::Orientation;
use nonogram::selection::Selection;
use nonogram::slice::Slice;
use nonogram::state::GridState;

use GridState::{Empty as E, Filled as F, Unknown as U};

fn row(index: i32, states: Vec<GridState>) -> Slice {
    Slice {
        selection: Selection { orientation: Orientation::Row, index },
        states,
    }
}

fn runs(states: &[GridState]) -> Vec<i32> {
    let mut out = Vec::new();
    let mut cur = 0;
    for s in states {
        if *s == F {
            cur += 1;
        } else if cur > 0 {
            out.push(cur);
            cur = 0;
        }
    }
    if cur > 0 {
        out.push(cur);
    }
    if out.is_empty() {
        out.push(0);
    }
    out
}

fn grid(b: &Board) -> Vec<Vec<GridState>> {
    (0..b.num_rows())
        .map(|i| (0..b.num_columns()).map(|j| b.cell(i, j)).collect())
        .collect()
}

fn five_by_five() -> Board {
    Board::new(
        vec![vec![1, 1, 1], vec![1], vec![4], vec![2], vec![3]],
        vec![vec![1, 1], vec![1], vec![1, 1, 1], vec![3], vec![2, 2]],
    )
}

#[test]
fn solves_five_by_five() {
    let rows = vec![vec![1, 1, 1], vec![1], vec![4], vec![2], vec![3]];
    let cols = vec![vec![1, 1], vec![1], vec![1, 1, 1], vec![3], vec![2, 2]];
    let mut b = five_by_five();
    assert_eq!(b.run_to_fixpoint(), Outcome::Solved);
    assert!(b.is_solved());
    let g = grid(&b);
    assert_eq!(
        g,
        vec![
            vec![F, E, F, E, F],
            vec![E, E, E, E, F],
            vec![F, F, F, F, E],
            vec![E, E, E, F, F],
            vec![E, E, F, F, F],
        ]
    );
    for i in 0..5 {
        for orientation in [Orientation::Row, Orientation::Column] {
            let sel = Selection { orientation, index: i as i32 };
            assert!(b.slice_is_completed(b.extract_slice(sel)));
        }
        assert_eq!(runs(&g[i]), rows[i]);
        let col: Vec<GridState> = (0..5).map(|r| g[r][i]).collect();
        assert_eq!(runs(&col), cols[i]);
    }
}

#[test]
fn full_row_has_one_candidate() {
    let line = row(0, vec![U, U, U]);
    let cands = enumerate(&line, &vec![3]);
    assert_eq!(cands.len(), 1);
    assert_eq!(cands[0].states, vec![F, F, F]);
    let mut acc = None;
    for c in cands {
        acc = Slice::merge(acc, c);
    }
    let m = acc.unwrap();
    assert!(m.states.iter().all(|s| *s != U));
}

#[test]
fn filled_first_cell_anchors_segment() {
    let line = row(0, vec![F, U, U, U, U]);
    assert!(line.can_fit(0, 2));
    assert!(!line.can_fit(1, 2));
    let placed = line.place_segment(0, 2);
    assert_eq!(placed.states, vec![F, F, E, U, U]);
    let cands = enumerate(&line, &vec![2]);
    assert_eq!(cands.len(), 1);
    assert_eq!(cands[0].states, vec![F, F, E, E, E]);
}

#[test]
fn segment_longer_than_line_is_contradiction() {
    let line = row(0, vec![U, U, U]);
    assert!(enumerate(&line, &vec![5]).is_empty());
    let mut b = Board::new(vec![vec![5]], vec![vec![1], vec![1], vec![1]]);
    assert_eq!(b.run_to_fixpoint(), Outcome::Contradiction);
}

#[test]
fn merge_with_itself_is_identity() {
    let c = row(2, vec![F, E, F, E]);
    let seeded = Slice::merge(None, row(2, vec![F, E, F, E])).unwrap();
    assert_eq!(seeded.states, c.states);
    let again = Slice::merge(Some(seeded), row(2, vec![F, E, F, E])).unwrap();
    assert_eq!(again.states, c.states);
    assert_eq!(again.selection, c.selection);
}

#[test]
fn merge_marks_disagreement_unknown() {
    let a = row(0, vec![F, E, F, E]);
    let b = row(0, vec![F, F, E, E]);
    let m = Slice::merge(Some(a), b).unwrap();
    assert_eq!(m.states, vec![F, U, U, E]);
}

fn brute_force_count(base: &[GridState], clue: &[i32]) -> usize {
    let n = base.len();
    let want: Vec<i32> = if clue.is_empty() { vec![0] } else { clue.to_vec() };
    let mut count = 0;
    for mask in 0u32..(1u32 << n) {
        let cand: Vec<GridState> = (0..n).map(|i| if mask & (1 << i) != 0 { F } else { E }).collect();
        let keeps = (0..n).all(|i| base[i] == U || base[i] == cand[i]);
        if keeps && runs(&cand) == want {
            count += 1;
        }
    }
    count
}

#[test]
fn enumeration_is_sound_and_complete_on_short_lines() {
    let clues: Vec<Vec<i32>> = vec![vec![], vec![0], vec![1], vec![2], vec![1, 1], vec![2, 1], vec![1, 2, 1], vec![3, 3], vec![10], vec![4, 4]];
    let bases: Vec<Vec<GridState>> = vec![
        vec![U; 10],
        vec![U, F, U, U, E, U, U, U, U, U],
        vec![U, U, U, U, U, U, U],
        vec![E, U, F, U, U, U],
        vec![U, U, U, U, U, U, U, U, U, F],
    ];
    for base in &bases {
        for clue in &clues {
            let line = row(1, base.clone());
            let cands = enumerate(&line, clue);
            let want: Vec<i32> = if clue.is_empty() { vec![0] } else { clue.clone() };
            for c in &cands {
                assert_eq!(runs(&c.states), want);
                assert!(c.states.iter().all(|s| *s == F || *s == E));
                assert_eq!(c.selection, line.selection);
            }
            assert_eq!(cands.len(), brute_force_count(base, clue), "{:?} {:?}", base, clue);
        }
    }
}

#[test]
fn empty_clue_with_filled_cell_has_no_candidate() {
    let line = row(0, vec![U, F, U]);
    assert!(enumerate(&line, &vec![]).is_empty());
    assert!(enumerate(&line, &vec![0]).is_empty());
    let free = row(0, vec![U, U, U]);
    let cands = enumerate(&free, &vec![0]);
    assert_eq!(cands.len(), 1);
    assert_eq!(cands[0].states, vec![E, E, E]);
}

#[test]
fn fixpoint_is_independent_of_order() {
    let mut a = five_by_five();
    let mut b = five_by_five();
    assert_eq!(a.run_to_fixpoint_ordered(true), Outcome::Solved);
    assert_eq!(b.run_to_fixpoint_ordered(false), Outcome::Solved);
    assert_eq!(grid(&a), grid(&b));

    let rows = vec![vec![1], vec![1]];
    let cols = vec![vec![1], vec![1]];
    let mut c = Board::new(rows.clone(), cols.clone());
    let mut d = Board::new(rows, cols);
    assert_eq!(c.run_to_fixpoint_ordered(true), Outcome::Stalled);
    assert_eq!(d.run_to_fixpoint_ordered(false), Outcome::Stalled);
    assert_eq!(grid(&c), grid(&d));
    assert!(!c.is_solved());
}

#[test]
fn steps_never_undo_known_cells() {
    let mut b = five_by_five();
    let mut before = grid(&b);
    let order: Vec<Selection> = (0..5)
        .map(|i| Selection { orientation: Orientation::Column, index: i })
        .chain((0..5).map(|i| Selection { orientation: Orientation::Row, index: i }))
        .collect();
    for _ in 0..3 {
        for sel in &order {
            assert!(b.solve_line(*sel).is_some());
            let after = grid(&b);
            for i in 0..5 {
                for j in 0..5 {
                    if before[i][j] != U {
                        assert_eq!(after[i][j], before[i][j]);
                    }
                }
            }
            before = after;
        }
    }
}

#[test]
fn updates_name_changed_cells_on_the_other_axis() {
    let a = row(3, vec![U, U, F, U]);
    let b = row(3, vec![F, U, F, E]);
    let ups = Slice::get_updates(a, b);
    assert_eq!(
        ups,
        vec![
            Selection { orientation: Orientation::Column, index: 0 },
            Selection { orientation: Orientation::Column, index: 3 },
        ]
    );
    let c = Slice { selection: Selection { orientation: Orientation::Column, index: 1 }, states: vec![U, E] };
    let d = Slice { selection: Selection { orientation: Orientation::Column, index: 1 }, states: vec![U, E] };
    assert!(Slice::get_updates(c, d).is_empty());
}

#[test]
fn line_probing_and_runs() {
    let s = row(0, vec![F, F, E, U, F]);
    assert_eq!(s.get(-1), GridState::OutOfBounds);
    assert_eq!(s.get(5), GridState::OutOfBounds);
    assert_eq!(s.get(1), F);
    assert_eq!(s.get_segments(), vec![2, 1]);
    assert_eq!(row(0, vec![E, U, E]).get_segments(), vec![0]);
    assert_eq!(s.finalize().states, vec![F, F, E, E, F]);
    assert!(!s.can_fit(3, 1));
    assert!(!s.can_fit(4, 2));
}

#[test]
fn orientation_and_chars() {
    assert_eq!(Orientation::Row.invert(), Orientation::Column);
    assert_eq!(Orientation::Column.invert(), Orientation::Row);
    assert_eq!(U.to_char(), '?');
    assert_eq!(F.to_char(), '\u{25A0}');
    assert_eq!(E.to_char(), ' ');
    assert_eq!(GridState::OutOfBounds.to_char(), 'X');
}

#[test]
fn board_lines_and_clues() {
    let mut b = Board::new(vec![vec![2], vec![]], vec![vec![1], vec![1], vec![0]]);
    assert_eq!(b.num_rows(), 2);
    assert_eq!(b.num_columns(), 3);
    let sel = Selection { orientation: Orientation::Row, index: 0 };
    assert_eq!(b.get_segments(sel), vec![2]);
    assert!(!b.slice_is_completed(b.extract_slice(sel)));
    b.apply_slice(row(0, vec![F, F, E]));
    assert!(b.slice_is_completed(b.extract_slice(sel)));
    let col = b.extract_slice(Selection { orientation: Orientation::Column, index: 1 });
    assert_eq!(col.states, vec![F, U]);
    assert!(!b.is_solved());
    assert_eq!(b.run_to_fixpoint(), Outcome::Solved);
    assert_eq!(grid(&b), vec![vec![F, F, E], vec![E, E, E]]);
}

#[test]
fn construction_rejects_bad_clues() {
    assert!(Board::try_new(vec![vec![1]], vec![vec![1]]).is_ok());
    assert!(Board::try_new(vec![vec![0]], vec![vec![]]).is_ok());
    assert_eq!(Board::try_new(vec![vec![1, 0]], vec![vec![1]]).err(), Some(ClueError::NonPositiveSegment));
    assert_eq!(Board::try_new(vec![vec![1]], vec![vec![-2]]).err(), Some(ClueError::NonPositiveSegment));
}
