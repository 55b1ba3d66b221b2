use tetris_engine::constants::{EFF_HEIGHT, FULL_ROW, WAVE_SIZE, WELL_LINE};
use tetris_engine::emulator::{
    get_legal, get_wave_height, get_well_height, resting_waveforms, scores, single_move,
    waveform_step, waveform_to_wells, well_slice, PiecePolicy,
};
use tetris_engine::types::{PieceTables, State, WellT};

const I_PIECE: usize = 0;
const O_PIECE: usize = 1;

fn shapes() -> Vec<Vec<(i32, i32)>> {
    vec![
        vec![(0, 0), (0, 1), (0, 2), (0, 3)],
        vec![(0, 0), (0, 1), (1, 0), (1, 1)],
        vec![(0, 1), (1, 0), (1, 1), (1, 2)],
        vec![(0, 1), (0, 2), (1, 0), (1, 1)],
        vec![(0, 0), (0, 1), (1, 1), (1, 2)],
        vec![(0, 0), (1, 0), (1, 1), (1, 2)],
        vec![(0, 2), (1, 0), (1, 1), (1, 2)],
    ]
}

/// Cells of a shape moved so that its lowest row is window row 3 and its
/// leftmost column is column 0.
fn normalize(cells: &[(i32, i32)]) -> Vec<(i32, i32)> {
    let max_r = cells.iter().map(|c| c.0).max().unwrap();
    let min_c = cells.iter().map(|c| c.1).min().unwrap();
    let mut out: Vec<(i32, i32)> = cells.iter().map(|c| (c.0 - max_r + 3, c.1 - min_c)).collect();
    out.sort();
    out
}

fn column_bit(col: i32) -> u16 {
    1 << (9 - col)
}

/// Pose `col * 4 + rot` of each piece; rotations that repeat an earlier one,
/// and poses that stick out of the well, are left out.
fn build_tables() -> PieceTables {
    let mut piece_slice = vec![];
    let mut empty_mask = vec![];
    let mut row_mask = vec![];
    let mut height_mask = vec![];
    let mut score_mask = vec![];
    for shape in shapes() {
        let mut rotations: Vec<Option<Vec<(i32, i32)>>> = vec![];
        let mut cells = normalize(&shape);
        for _ in 0..4 {
            if rotations.iter().any(|r| r.as_ref() == Some(&cells)) {
                rotations.push(None);
            } else {
                rotations.push(Some(cells.clone()));
            }
            let turned: Vec<(i32, i32)> = cells.iter().map(|&(r, c)| (c, -r)).collect();
            cells = normalize(&turned);
        }
        let mut slices = vec![[0u16; 4]; WAVE_SIZE];
        let mut valid = vec![false; WAVE_SIZE];
        let mut lowest = vec![0usize; WAVE_SIZE];
        for col in 0..10 {
            for rot in 0..4 {
                let i = col * 4 + rot;
                if let Some(cells) = &rotations[rot] {
                    if cells.iter().all(|&(_, c)| c + (col as i32) < 10) {
                        valid[i] = true;
                        for &(r, c) in cells {
                            slices[i][r as usize] |= column_bit(c + col as i32);
                            lowest[i] = lowest[i].max(r as usize);
                        }
                    }
                }
            }
        }
        let bit = |i: usize| 1u64 << (WAVE_SIZE - 1 - i);
        let mut empty = 0u64;
        let mut heights = [0u64; 4];
        for i in 0..WAVE_SIZE {
            if valid[i] {
                empty |= bit(i);
                heights[lowest[i]] |= bit(i);
            }
        }
        let mut rows = vec![[0u64; 4]; 1024];
        let mut fills = vec![[0u64; 4]; 1024];
        for v in 0..1024usize {
            for r in 0..4 {
                for i in 0..WAVE_SIZE {
                    if !valid[i] {
                        continue;
                    }
                    let s = slices[i][r];
                    if s & (v as u16) == 0 {
                        rows[v][r] |= bit(i);
                        if s != 0 && (s | v as u16) == FULL_ROW {
                            fills[v][r] |= bit(i);
                        }
                    }
                }
            }
        }
        piece_slice.push(slices);
        empty_mask.push(empty);
        row_mask.push(rows);
        height_mask.push(heights);
        score_mask.push(fills);
    }
    PieceTables { piece_slice, empty_mask, row_mask, height_mask, score_mask }
}

fn pose_bit(col: usize, rot: usize) -> u64 {
    1u64 << (WAVE_SIZE - 1 - (col * 4 + rot))
}

fn all_wells(p: usize, state: &State, t: &PieceTables) -> Vec<State> {
    let mut out = vec![];
    for (w, h) in resting_waveforms(p, &state.well, t) {
        out.extend(waveform_to_wells(w, h, p, state, t));
    }
    out
}

fn empty_well() -> WellT {
    [0; EFF_HEIGHT]
}

#[test]
fn empty_well_vertical_i_placement() {
    let t = build_tables();
    let state = State::new();
    let wells = all_wells(I_PIECE, &state, &t);
    assert_eq!(wells.len(), 17);
    let mut expected = empty_well();
    for row in 16..20 {
        expected[row] = column_bit(0);
    }
    let hits: Vec<&State> = wells.iter().filter(|s| s.well == expected).collect();
    assert_eq!(hits.len(), 1);
    assert_eq!(hits[0].score, 0);
    let verticals = wells.iter().filter(|s| s.well[16] != 0).count();
    assert_eq!(verticals, 10);
}

#[test]
fn single_line_clear() {
    let t = build_tables();
    let mut well = empty_well();
    well[19] = FULL_ROW & !column_bit(0);
    let state = State { score: 3, well };
    let wells = all_wells(I_PIECE, &state, &t);
    let mut expected = empty_well();
    for row in 17..20 {
        expected[row] = column_bit(0);
    }
    let cleared: Vec<&State> = wells.iter().filter(|s| s.score == 4).collect();
    assert_eq!(cleared.len(), 1);
    assert_eq!(cleared[0].well, expected);
}

#[test]
fn tetris_clear() {
    let t = build_tables();
    let mut well = empty_well();
    for row in 16..20 {
        well[row] = FULL_ROW & !column_bit(9);
    }
    let state = State { score: 5, well };
    let wells = all_wells(I_PIECE, &state, &t);
    let cleared: Vec<&State> = wells.iter().filter(|s| s.score == 21).collect();
    assert_eq!(cleared.len(), 1);
    assert_eq!(cleared[0].well, empty_well());
}

#[test]
fn unreachable_pose_removed() {
    let t = build_tables();
    let mut well = empty_well();
    well[18] = FULL_ROW & !column_bit(3);
    well[19] = FULL_ROW & !column_bit(3);
    let waves = resting_waveforms(O_PIECE, &well, &t);
    for (w, h) in &waves {
        if *h == 20 {
            assert_eq!(*w, 0);
        }
    }
    let state = State { score: 0, well };
    for s in all_wells(O_PIECE, &state, &t) {
        assert_eq!(s.well[18], well[18]);
        assert_eq!(s.well[19], well[19]);
    }
}

#[test]
fn resting_heights_are_consecutive() {
    let t = build_tables();
    let well = empty_well();
    let waves = resting_waveforms(I_PIECE, &well, &t);
    assert_eq!(waves.len(), 2);
    assert_eq!(waves[0].1, 20);
    assert_eq!(waves[1], (0, 21));
    assert_eq!(waves[0].0, t.empty_mask[I_PIECE]);
}

#[test]
fn full_well_top_gives_no_waves_below_reach() {
    let t = build_tables();
    let mut well = empty_well();
    for row in 0..EFF_HEIGHT {
        well[row] = FULL_ROW & !column_bit(0);
    }
    let waves = resting_waveforms(O_PIECE, &well, &t);
    let state = State { score: 0, well };
    let mut count = 0;
    for (w, h) in waves {
        count += waveform_to_wells(w, h, O_PIECE, &state, &t).len();
    }
    assert_eq!(count, 0);
}

#[test]
fn well_slice_clamps() {
    let mut well = empty_well();
    well[0] = 5;
    well[19] = 7;
    assert_eq!(well_slice(0, &well), [0, 0, 0, 0]);
    assert_eq!(well_slice(2, &well), [0, 0, 5, 0]);
    assert_eq!(well_slice(20, &well), [0, 0, 0, 7]);
    assert_eq!(well_slice(22, &well), [0, 7, FULL_ROW, FULL_ROW]);
    assert_eq!(well_slice(30, &well), [FULL_ROW; 4]);
}

#[test]
fn well_height_of_wells() {
    let mut well = empty_well();
    assert_eq!(get_well_height(&well), 20);
    well[12] = 1;
    assert_eq!(get_well_height(&well), 12);
    well[0] = 1;
    assert_eq!(get_well_height(&well), 0);
}

#[test]
fn step_is_legal_and_settled() {
    let t = build_tables();
    let mut well = empty_well();
    well[18] = FULL_ROW & !column_bit(3);
    well[19] = FULL_ROW & !column_bit(3);
    for p in 0..7 {
        for h in 16..23 {
            let once = waveform_step(t.empty_mask[p], p, h, &well, &t);
            let twice = waveform_step(once, p, h, &well, &t);
            assert_eq!(once, twice);
            let window = well_slice(h, &well);
            for i in 0..WAVE_SIZE {
                if once & (1u64 << (WAVE_SIZE - 1 - i)) != 0 {
                    for r in 0..4 {
                        assert_eq!(t.piece_slice[p][i][r] & window[r], 0);
                    }
                }
            }
        }
    }
}

#[test]
fn step_grows_from_one_pose() {
    let t = build_tables();
    let well = empty_well();
    let start = pose_bit(0, 0);
    let w = waveform_step(start, O_PIECE, 20, &well, &t);
    assert_eq!(w, t.empty_mask[O_PIECE]);
    let blocked = waveform_step(0, O_PIECE, 20, &well, &t);
    assert_eq!(blocked, 0);
}

#[test]
fn scores_partition_wave() {
    let t = build_tables();
    let mut well = empty_well();
    for row in 16..20 {
        well[row] = FULL_ROW & !column_bit(9);
    }
    well[17] = FULL_ROW & !column_bit(9) & !column_bit(0);
    let waves = resting_waveforms(I_PIECE, &well, &t);
    for (w, h) in waves {
        let classes = scores(w, h, I_PIECE, &well, &t);
        let mut union = 0;
        for a in 0..5 {
            union |= classes[a];
            for b in 0..5 {
                if a != b {
                    assert_eq!(classes[a] & classes[b], 0);
                }
            }
        }
        assert_eq!(union, w);
        if h == 20 {
            assert_eq!(classes[3], pose_bit(9, 1));
        }
    }
}

#[test]
fn triple_clear_counts_three() {
    let t = build_tables();
    let mut well = empty_well();
    for row in 17..20 {
        well[row] = FULL_ROW & !column_bit(9);
    }
    let state = State { score: 0, well };
    let wells = all_wells(I_PIECE, &state, &t);
    assert!(wells.iter().any(|s| s.score == 9));
    let waves = resting_waveforms(I_PIECE, &well, &t);
    for (w, h) in waves {
        let classes = scores(w, h, I_PIECE, &well, &t);
        if classes[3] != 0 {
            assert_eq!(classes[1] & classes[3], 0);
            assert_eq!(classes[2] & classes[3], 0);
        }
    }
}

#[test]
fn wave_height_sentinel() {
    let t = build_tables();
    let well = empty_well();
    assert_eq!(get_wave_height(0, 20, I_PIECE, &well, &t), -(WELL_LINE as isize));
}

#[test]
fn wave_height_of_vertical_i() {
    let t = build_tables();
    let well = empty_well();
    let w = pose_bit(0, 1);
    assert_eq!(get_wave_height(w, 20, I_PIECE, &well, &t), 19);
    let mut tetris = empty_well();
    for row in 16..20 {
        tetris[row] = FULL_ROW & !column_bit(9);
    }
    assert_eq!(get_wave_height(pose_bit(9, 1), 20, I_PIECE, &tetris, &t), 16 + 4);
}

#[test]
fn scores_stay_monotone() {
    let t = build_tables();
    let mut well = empty_well();
    for row in 15..20 {
        well[row] = FULL_ROW & !column_bit((row % 3) as i32);
    }
    let state = State { score: 10, well };
    for p in 0..7 {
        for s in all_wells(p, &state, &t) {
            let d = s.score - state.score;
            assert!([0, 1, 4, 9, 16].contains(&d));
            for row in 0..EFF_HEIGHT {
                assert_ne!(s.well[row], FULL_ROW);
            }
            let first = (0..EFF_HEIGHT).find(|&r| s.well[r] != 0).unwrap_or(EFF_HEIGHT);
            for row in first..EFF_HEIGHT {
                assert_ne!(s.well[row], 0);
            }
        }
    }
}

#[test]
fn adversarial_choice_is_lowest_piece() {
    let t = build_tables();
    let state = State::new();
    let (piece, waves) = get_legal(&state, &t, PiecePolicy::Adversarial);
    assert_eq!(waves.len(), 7);
    let mut heights = vec![];
    for p in 0..7 {
        let mut best = -(WELL_LINE as isize);
        for (w, h) in &waves[p] {
            best = best.max(get_wave_height(*w, *h, p, &state.well, &t));
        }
        heights.push(best);
    }
    let lowest = *heights.iter().min().unwrap();
    assert_eq!(heights[piece], lowest);
    assert!(heights[..piece].iter().all(|&h| h > lowest));
}

#[test]
fn random_choice_stays_in_range() {
    let t = build_tables();
    let state = State::new();
    for seed in [0u64, 7, 1000, u64::MAX] {
        let (piece, _) = get_legal(&state, &t, PiecePolicy::Random { seed });
        assert!(piece < 7);
    }
    let moves = single_move(&state, &t, PiecePolicy::Random { seed: 1000 });
    assert!(!moves.is_empty());
}

#[test]
fn single_move_on_empty_well() {
    let t = build_tables();
    let state = State::new();
    let moves = single_move(&state, &t, PiecePolicy::Adversarial);
    let (piece, _) = get_legal(&state, &t, PiecePolicy::Adversarial);
    assert_eq!(moves, all_wells(piece, &state, &t));
    assert!(moves.iter().all(|s| s.score == 0));
}
