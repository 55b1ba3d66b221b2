use tetris_engine::constants::{EFF_HEIGHT, FULL_ROW, WAVE_SIZE};
use tetris_engine::search::{advance_frontier, ancestor_chain, single_clear_children, PathLink};
use tetris_engine::types::{GetInsertQuery, PieceTables, SearchConf, State, StateD, StateH, WeightDiscreteT};

fn column_bit(col: i32) -> u16 {
    1 << (9 - col)
}

/// Two pieces: a vertical bar and a two-by-two square, in every column they fit.
fn small_tables() -> PieceTables {
    let mut piece_slice = vec![];
    let mut empty_mask = vec![];
    let mut row_mask = vec![];
    let mut height_mask = vec![];
    let mut score_mask = vec![];
    for width in [1i32, 2] {
        let mut slices = vec![[0u16; 4]; WAVE_SIZE];
        let mut valid = vec![false; WAVE_SIZE];
        for col in 0..10i32 {
            if col + width > 10 {
                continue;
            }
            let i = (col * 4) as usize;
            valid[i] = true;
            let mut row = 0u16;
            for c in col..col + width {
                row |= column_bit(c);
            }
            if width == 1 {
                slices[i] = [row; 4];
            } else {
                slices[i] = [0, 0, row, row];
            }
        }
        let bit = |i: usize| 1u64 << (WAVE_SIZE - 1 - i);
        let mut empty = 0u64;
        for i in 0..WAVE_SIZE {
            if valid[i] {
                empty |= bit(i);
            }
        }
        let mut rows = vec![[0u64; 4]; 1024];
        let mut fills = vec![[0u64; 4]; 1024];
        for v in 0..1024usize {
            for r in 0..4 {
                for i in 0..WAVE_SIZE {
                    let s = slices[i][r];
                    if valid[i] && s & (v as u16) == 0 {
                        rows[v][r] |= bit(i);
                        if s != 0 && (s | v as u16) == FULL_ROW {
                            fills[v][r] |= bit(i);
                        }
                    }
                }
            }
        }
        piece_slice.push(slices);
        empty_mask.push(empty);
        row_mask.push(rows);
        height_mask.push([0, 0, 0, empty]);
        score_mask.push(fills);
    }
    PieceTables { piece_slice, empty_mask, row_mask, height_mask, score_mask }
}

#[test]
fn quiescence_no_op_without_clears() {
    let t = small_tables();
    let state = State::new();
    assert!(single_clear_children(&state, 0, 0, &t).is_empty());
    let legal = vec![state];
    let frontier = vec![(state, vec![0usize])];
    assert!(advance_frontier(&frontier, &legal, 0, &t).is_empty());
}

#[test]
fn single_clear_children_of_one_gap() {
    let t = small_tables();
    let mut well = [0u16; EFF_HEIGHT];
    well[19] = FULL_ROW & !column_bit(4);
    let state = State { score: 2, well };
    let children = single_clear_children(&state, 2, 0, &t);
    assert_eq!(children.len(), 1);
    assert_eq!(children[0].score, 3);
    let mut expected = [0u16; EFF_HEIGHT];
    for row in 17..20 {
        expected[row] = column_bit(4);
    }
    assert_eq!(children[0].well, expected);
}

#[test]
fn double_clear_skips_the_piece() {
    let t = small_tables();
    let mut well = [0u16; EFF_HEIGHT];
    well[18] = FULL_ROW & !column_bit(4);
    well[19] = FULL_ROW & !column_bit(4);
    let state = State { score: 0, well };
    assert!(single_clear_children(&state, 0, 0, &t).is_empty());
}

#[test]
fn frontier_merges_equal_children() {
    let t = small_tables();
    let mut well = [0u16; EFF_HEIGHT];
    well[19] = FULL_ROW & !column_bit(4);
    let state = State { score: 0, well };
    let legal = vec![state, state, state];
    let frontier = vec![(state, vec![0usize, 1]), (state, vec![2usize])];
    let next = advance_frontier(&frontier, &legal, 0, &t);
    assert_eq!(next.len(), 1);
    assert_eq!(next[0].1, vec![0, 1, 2]);
    assert_eq!(next[0].0.score, 1);
}

#[test]
fn ancestor_chain_reaches_root() {
    let links = vec![
        PathLink { depth: 0, parent_index: 0 },
        PathLink { depth: 1, parent_index: 0 },
        PathLink { depth: 2, parent_index: 1 },
        PathLink { depth: 1, parent_index: 0 },
    ];
    assert_eq!(ancestor_chain(&links, 2), vec![2, 1, 0]);
    assert_eq!(ancestor_chain(&links, 3), vec![3, 0]);
    assert!(ancestor_chain(&links, 0).is_empty());
}

#[test]
fn loop_path_of_two() {
    let links = vec![PathLink { depth: 0, parent_index: 0 }, PathLink { depth: 1, parent_index: 0 }];
    let chain = ancestor_chain(&links, links.len() - 1);
    assert!(chain.len() >= 1);
    assert_eq!(chain, vec![1, 0]);
}

#[test]
fn state_h_equality_ignores_heuristic_but_not_score() {
    let a = StateH { well: [0; EFF_HEIGHT], score: 1, heuristic: 5 };
    let b = StateH { well: [0; EFF_HEIGHT], score: 2, heuristic: 5 };
    let c = StateH { well: [0; EFF_HEIGHT], score: 1, heuristic: 9 };
    assert!(a != b);
    assert!(a == c);
    assert_eq!(StateH::new().heuristic, i64::MIN);
}

#[test]
fn state_order_is_score_then_rows() {
    let mut high = [0u16; EFF_HEIGHT];
    high[0] = 1;
    let a = State { score: 1, well: high };
    let b = State { score: 2, well: [0; EFF_HEIGHT] };
    let c = State { score: 1, well: [0; EFF_HEIGHT] };
    assert!(a < b);
    assert!(c < a);
    assert_eq!(State::convert(StateH { well: high, score: 1, heuristic: 0 }), a);
}

#[test]
fn state_d_round_trip() {
    let s = State { score: 4, well: [3; EFF_HEIGHT] };
    let d = StateD::convert(&s, 2, 7);
    assert_eq!(StateD::convert_tuple(&d), (s, (2, 7)));
}

#[test]
fn search_conf_paths() {
    let conf = SearchConf::master(5);
    assert!(conf.quiescent && conf.parent && conf.save && conf.print);
    assert_eq!(conf.run_name(), "aeon-1-gen-5");
    assert_eq!(conf.aeon_path(), "checkpoints/Aeon 1");
    assert_eq!(conf.neural_network_path(), "checkpoints/Aeon 1/Generation 5/Network 5.bin");
    assert_eq!(conf.move_path(12), "checkpoints/Aeon 1/Generation 5/Replay/move_12.bin");
    assert_eq!(conf.parent_path(0), "checkpoints/Aeon 1/Generation 5/Replay/parent_0.bin");
    assert_eq!(conf.epoch_path(-3), "checkpoints/Aeon 1/Generation 5/Training/epoch_-3.bin");
    assert_eq!(conf.data_path(), "checkpoints/Aeon 1/Generation 5/Training/all_epochs.bin");
    let training = SearchConf::training(3);
    assert!(!training.quiescent);
    assert_eq!(training.generation, 3);
    assert_eq!(SearchConf::testing().beam_depth, usize::MAX);
}

#[test]
fn discrete_weights_start_at_zero() {
    let w = WeightDiscreteT::zero();
    assert!(w.conv.iter().all(|row| row.iter().all(|&x| x == 0)));
    assert!(w.hidden.iter().all(|&x| x == 0));
}

#[test]
fn initial_frontier_merges_duplicates() {
    let mut well = [0u16; EFF_HEIGHT];
    well[19] = 1;
    let a = State { score: 0, well };
    let b = State::new();
    let frontier = tetris_engine::search::initial_frontier(&vec![a, b, a]);
    assert_eq!(frontier, vec![(a, vec![0, 2]), (b, vec![1])]);
}

#[test]
fn insert_query_text() {
    let mut well = [0u16; EFF_HEIGHT];
    well[19] = 1023;
    let d = StateD { well, score: 9, depth: 3, run_id: -2 };
    let q = d.get_insert_query();
    assert_eq!(
        q,
        format!("INSERT INTO WELLS (well_state, run_id, depth, score) VALUES ('{:?}', -2, 3, 9);", well)
    );
}

#[test]
fn table_and_well_checks() {
    let t = small_tables();
    assert!(t.is_wf());
    let mut broken = small_tables();
    broken.height_mask[0][1] = broken.height_mask[0][3];
    assert!(!broken.is_wf());
    let mut short = small_tables();
    short.row_mask[1].pop();
    assert!(!short.is_wf());
    let mut well = [0u16; EFF_HEIGHT];
    assert!(tetris_engine::types::well_is_wf(&well));
    well[4] = 1024;
    assert!(!tetris_engine::types::well_is_wf(&well));
}
