use vstd::prelude::*;
use crate::constants::{
    COLUMN_SHIFT, EFF_HEIGHT, FULL_ROW, ROTATE_LEFT, ROTATE_RIGHT, ROTATE_SHIFT, WAVE_SIZE,
    WELL_HEIGHT, WELL_LINE, MAX_SCORE,
};
use rand::{Rng, SeedableRng};
use crate::types::{well_wf, PieceTables, RowT, ScoreT, State, WaveT, WellT};

verus! {

// The height of a waveform is the index of the row just below the bottom row
// of its 4-row window: the window covers rows `height - 4 ..= height - 1`.

/// Row `r` of the window above `height`: empty above the well, full below it.
pub open spec fn window_row(height: int, well: Seq<u16>, r: int) -> u16 {
    let idx = height - 4 + r;
    if idx < 0 {
        0
    } else if idx >= EFF_HEIGHT {
        FULL_ROW
    } else {
        well[idx]
    }
}

/// Index of the topmost non-empty row at or below `from`, or the well's length.
pub open spec fn top_row(well: Seq<u16>, from: int) -> int
    decreases well.len() - from,
{
    if from >= well.len() || from < 0 {
        well.len() as int
    } else if well[from] != 0 {
        from
    } else {
        top_row(well, from + 1)
    }
}

/// The height of a well: the index of its topmost non-empty row.
pub open spec fn well_height(well: Seq<u16>) -> int {
    top_row(well, 0)
}

/// The poses of piece `p` that collide with none of the four window rows.
pub open spec fn legal_mask(t: &PieceTables, p: int, height: int, well: Seq<u16>) -> u64 {
    let rm = t.row_mask@[p]@;
    t.empty_mask@[p] & rm[window_row(height, well, 0) as int]@[0] & rm[window_row(
        height,
        well,
        1,
    ) as int]@[1] & rm[window_row(height, well, 2) as int]@[2] & rm[window_row(
        height,
        well,
        3,
    ) as int]@[3]
}

/// One layer of moves: a column either way, a rotation either way, or staying.
pub open spec fn dilate(w: u64, mask: u64) -> u64 {
    ((w << COLUMN_SHIFT) | (w >> COLUMN_SHIFT) | ((w & ROTATE_LEFT) << ROTATE_SHIFT) | ((w
        & ROTATE_RIGHT) >> ROTATE_SHIFT) | w) & mask
}

/// The poses reached from `w` in at most `n` layers of moves inside `mask`.
pub open spec fn spread(w: u64, mask: u64, n: nat) -> u64
    decreases n,
{
    if n == 0 {
        w
    } else {
        dilate(spread(w, mask, (n - 1) as nat), mask)
    }
}

pub open spec fn settled_at(w: u64, mask: u64, n: nat) -> bool {
    dilate(spread(w, mask, n), mask) == spread(w, mask, n)
}

/// Every pose reachable from `w` by moves that stay inside `mask`.
pub open spec fn closure(w: u64, mask: u64) -> u64 {
    spread(w, mask, choose|n: nat| settled_at(w, mask, n))
}

/// The result of one propagation at `height`: the reachable legal poses.
pub open spec fn step_spec(t: &PieceTables, w: u64, p: int, height: int, well: Seq<u16>) -> u64 {
    let m = legal_mask(t, p, height, well);
    closure(w & m, m)
}

proof fn lemma_spread_stays(w: u64, mask: u64, n: nat, j: nat)
    requires
        settled_at(w, mask, n),
    ensures
        spread(w, mask, n + j) == spread(w, mask, n),
    decreases j,
{
    if j > 0 {
        lemma_spread_stays(w, mask, n, (j - 1) as nat);
        assert(spread(w, mask, n + j) == dilate(spread(w, mask, (n + j - 1) as nat), mask));
    }
}

/// Once the spread is settled, it is the closure.
proof fn lemma_closure_at(w: u64, mask: u64, n: nat)
    requires
        settled_at(w, mask, n),
    ensures
        closure(w, mask) == spread(w, mask, n),
{
    let k = choose|k: nat| settled_at(w, mask, k);
    assert(settled_at(w, mask, k));
    if k <= n {
        lemma_spread_stays(w, mask, k, (n - k) as nat);
    } else {
        lemma_spread_stays(w, mask, n, (k - n) as nat);
    }
}

proof fn lemma_dilate_grows(w: u64, mask: u64)
    requires
        w & mask == w,
    ensures
        dilate(w, mask) & w == w,
        dilate(w, mask) & mask == dilate(w, mask),
{
    assert(((((w << 4u64) | (w >> 4u64) | ((w & 0x33_3333_3333u64) << 2u64) | ((w
        & 0xcc_cccc_ccccu64) >> 2u64) | w) & mask) & w == w) && ((((w << 4u64) | (w >> 4u64) | ((w
        & 0x33_3333_3333u64) << 2u64) | ((w & 0xcc_cccc_ccccu64) >> 2u64) | w) & mask) & mask == (((
    w << 4u64) | (w >> 4u64) | ((w & 0x33_3333_3333u64) << 2u64) | ((w & 0xcc_cccc_ccccu64)
        >> 2u64) | w) & mask))) by (bit_vector)
        requires
            w & mask == w,
    ;
}

/// A legal pose set that no move enlarges is its own closure.
proof fn lemma_closure_of_settled(w: u64, mask: u64)
    requires
        w & mask == w,
        dilate(w, mask) == w,
    ensures
        closure(w, mask) == w,
{
    assert(spread(w, mask, 0) == w);
    lemma_closure_at(w, mask, 0);
}

/// The window of four rows above `height`, top row first; rows above the
/// well read as empty and rows below it as full.
pub fn well_slice(height: usize, well: &WellT) -> (r: [RowT; 4])
    ensures
        forall|k: int| 0 <= k < 4 ==> #[trigger] r@[k] == window_row(height as int, well@, k),
{
    let mut out: [RowT; 4] = [0; 4];
    let mut k: usize = 0;
    while k < 4
        invariant
            0 <= k <= 4,
            forall|j: int| 0 <= j < k ==> #[trigger] out@[j] == window_row(height as int, well@, j),
        decreases 4 - k,
    {
        if height < 4 - k {
            out[k] = 0;
        } else if height - (4 - k) >= EFF_HEIGHT {
            out[k] = FULL_ROW;
        } else {
            out[k] = well[height - (4 - k)];
        }
        k += 1;
    }
    out
}

/// The index of the topmost non-empty row; `EFF_HEIGHT` for an empty well.
pub fn get_well_height(well: &WellT) -> (r: usize)
    ensures
        r == well_height(well@),
        r <= EFF_HEIGHT,
        forall|i: int| 0 <= i < r ==> well@[i] == 0,
        r < EFF_HEIGHT ==> well@[r as int] != 0,
{
    let mut height: usize = 0;
    while height < EFF_HEIGHT && well[height] == 0
        invariant
            0 <= height <= EFF_HEIGHT,
            top_row(well@, height as int) == top_row(well@, 0),
            forall|i: int| 0 <= i < height ==> well@[i] == 0,
        decreases EFF_HEIGHT - height,
    {
        height += 1;
    }
    height
}

/// The legality mask of piece `p` at `height`.
fn legal_mask_at(t: &PieceTables, p: usize, height: usize, well: &WellT) -> (r: u64)
    requires
        t.wf(),
        p < t.pieces(),
        well_wf(well@),
    ensures
        r == legal_mask(t, p as int, height as int, well@),
{
    let window = well_slice(height, well);
    proof {
        assert forall|k: int| 0 <= k < 4 implies window@[k] <= FULL_ROW by {
            assert(window@[k] == window_row(height as int, well@, k));
        }
        assert(t.row_mask@[p as int]@.len() == 1024);
    }
    let rm = &t.row_mask[p];
    let mut mask = t.empty_mask[p];
    mask = mask & rm[window[0] as usize][0];
    mask = mask & rm[window[1] as usize][1];
    mask = mask & rm[window[2] as usize][2];
    mask = mask & rm[window[3] as usize][3];
    mask
}

/// Expands `w_old` by breadth-first moves (a column left or right, a rotation
/// either way) until nothing new is reached, keeping only the poses of piece
/// `p` that collide with nothing in the window above `height`.
pub fn waveform_step(w_old: WaveT, p: usize, height: usize, well: &WellT, t: &PieceTables) -> (r:
    WaveT)
    requires
        t.wf(),
        p < t.pieces(),
        well_wf(well@),
    ensures
        r == step_spec(t, w_old, p as int, height as int, well@),
        r & legal_mask(t, p as int, height as int, well@) == r,
        r & (w_old & legal_mask(t, p as int, height as int, well@)) == w_old & legal_mask(
            t,
            p as int,
            height as int,
            well@,
        ),
{
    let mask = legal_mask_at(t, p, height, well);
    let mut w = w_old & mask;
    let ghost start = w;
    let ghost mut k: nat = 0;
    let mut growing = true;
    assert(start & mask == start) by (bit_vector)
        requires
            start == w_old & mask,
    ;
    assert(start & start == start) by (bit_vector);
    while growing
        invariant
            start == w_old & mask,
            start & mask == start,
            w == spread(start, mask, k),
            w & mask == w,
            w & start == start,
            !growing ==> dilate(w, mask) == w,
        decreases (u64::MAX - w) * 2 + (if growing { 1int } else { 0int }),
    {
        proof {
            lemma_dilate_grows(w, mask);
        }
        let grown = ((w << COLUMN_SHIFT) | (w >> COLUMN_SHIFT) | ((w & ROTATE_LEFT) << ROTATE_SHIFT)
            | ((w & ROTATE_RIGHT) >> ROTATE_SHIFT) | w) & mask;
        let fresh = grown & !w;
        assert(grown == dilate(w, mask));
        proof {
            let ow = w;
            assert(grown & start == start && (fresh == 0 ==> grown == ow) && (fresh != 0 ==> grown
                > ow)) by (bit_vector)
                requires
                    grown & ow == ow,
                    ow & start == start,
                    fresh == grown & !ow,
            ;
            k = k + 1;
        }
        w = grown;
        growing = fresh != 0;
    }
    proof {
        lemma_closure_at(start, mask, k);
    }
    w
}


/// Row `row` of `well` with the rows of a piece window above `height` laid over it.
pub open spec fn stamp_row(well: Seq<u16>, piece: Seq<u16>, height: int, row: int) -> u16 {
    if height - 4 <= row && row <= height - 1 {
        well[row] | piece[row - height + 4]
    } else {
        well[row]
    }
}

/// The well with the piece rows laid over it; rows outside the well are dropped.
pub open spec fn stamped(well: Seq<u16>, piece: Seq<u16>, height: int) -> Seq<u16> {
    Seq::new(EFF_HEIGHT as nat, |row: int| stamp_row(well, piece, height, row))
}

/// The rows that are not full, in their order.
pub open spec fn survivors(rows: Seq<u16>) -> Seq<u16>
    decreases rows.len(),
{
    if rows.len() == 0 {
        rows
    } else if rows[0] == FULL_ROW {
        survivors(rows.drop_first())
    } else {
        seq![rows[0]] + survivors(rows.drop_first())
    }
}

/// Number of full rows.
pub open spec fn cleared(rows: Seq<u16>) -> int {
    rows.len() - survivors(rows).len()
}

/// The rows after the full ones are removed and the rest fall to the bottom.
pub open spec fn settle(rows: Seq<u16>) -> Seq<u16> {
    Seq::new(cleared(rows) as nat, |i: int| 0u16) + survivors(rows)
}

/// The state left by dropping pose `pose` of piece `p` at `height` into `s`.
pub open spec fn place(t: &PieceTables, s: (Seq<u16>, int), p: int, height: int, pose: int) -> (
    Seq<u16>,
    int,
) {
    let rows = stamped(s.0, t.piece_slice@[p]@[pose]@, height);
    (settle(rows), s.1 + cleared(rows) * cleared(rows))
}

pub open spec fn bit(w: u64, b: u64) -> bool {
    (w >> b) & 1u64 == 1u64
}

/// The states for the set bits `0 .. n` of `wave`, lowest bit first; bit `b`
/// stands for pose `WAVE_SIZE - 1 - b`.
pub open spec fn placements(
    t: &PieceTables,
    wave: u64,
    height: int,
    p: int,
    s: (Seq<u16>, int),
    n: nat,
) -> Seq<(Seq<u16>, int)>
    decreases n,
{
    if n == 0 {
        seq![]
    } else {
        let prev = placements(t, wave, height, p, s, (n - 1) as nat);
        if bit(wave, (n - 1) as u64) {
            prev.push(place(t, s, p, height, WAVE_SIZE - n))
        } else {
            prev
        }
    }
}

pub open spec fn wells_of(t: &PieceTables, wave: u64, height: int, p: int, s: (Seq<u16>, int)) -> Seq<
    (Seq<u16>, int),
> {
    placements(t, wave, height, p, s, WAVE_SIZE as nat)
}

pub open spec fn views(states: Seq<State>) -> Seq<(Seq<u16>, int)> {
    states.map_values(|st: State| st@)
}

/// Drops pose `pose` of piece `p` at `height` into `state`, clears the full
/// rows and lets the rows above them fall.
fn place_pose(state: &State, pose: usize, height: usize, p: usize, t: &PieceTables) -> (r: State)
    requires
        t.wf(),
        p < t.pieces(),
        pose < WAVE_SIZE,
        well_wf(state.well@),
        state.score <= MAX_SCORE,
    ensures
        r@ == place(t, state@, p as int, height as int, pose as int),
        well_wf(r.well@),
{
    let piece = &t.piece_slice[p][pose];
    let ghost rows = stamped(state.well@, piece@, height as int);
    let mut new_well: WellT = [0; EFF_HEIGHT];
    let mut k: usize = 0;
    let mut row: usize = EFF_HEIGHT;
    while row > 0
        invariant
            t.wf(),
            p < t.pieces(),
            pose < WAVE_SIZE,
            piece == t.piece_slice@[p as int]@[pose as int],
            well_wf(state.well@),
            rows == stamped(state.well@, piece@, height as int),
            0 <= row <= EFF_HEIGHT,
            k + survivors(rows.subrange(row as int, EFF_HEIGHT as int)).len() == EFF_HEIGHT - row,
            new_well@.subrange(row + k, EFF_HEIGHT as int) == survivors(
                rows.subrange(row as int, EFF_HEIGHT as int),
            ),
            forall|i: int| 0 <= i < row + k ==> new_well@[i] == 0,
            forall|i: int| 0 <= i < EFF_HEIGHT ==> new_well@[i] <= FULL_ROW,
        decreases row,
    {
        row -= 1;
        let mut v = state.well[row];
        if height >= 1 && row <= height - 1 && row + 4 > height - 1 {
            let a = v;
            let b = piece[row + 4 - height];
            assert(b <= FULL_ROW);
            assert(a | b <= 0x3ff) by (bit_vector)
                requires
                    a <= 0x3ff,
                    b <= 0x3ff,
            ;
            v = a | b;
        }
        let ghost sub = rows.subrange(row as int, EFF_HEIGHT as int);
        assert(sub[0] == v);
        assert(sub.drop_first() =~= rows.subrange(row + 1, EFF_HEIGHT as int));
        if v == FULL_ROW {
            k += 1;
        } else {
            let ghost before = new_well@;
            new_well[row + k] = v;
            assert(new_well@.subrange(row + k, EFF_HEIGHT as int) =~= seq![v]
                + before.subrange(row + k + 1, EFF_HEIGHT as int));
        }
    }
    proof {
        assert(rows.subrange(0, EFF_HEIGHT as int) =~= rows);
        assert(new_well@ =~= settle(rows));
        assert(k * k <= 400) by (nonlinear_arith)
            requires
                k <= 20,
        ;
    }
    State { score: state.score + (k * k) as ScoreT, well: new_well }
}

/// Every state that a pose of `wave` leaves behind, for the poses from
/// `WAVE_SIZE - 1` (bit 0) down to 0. Equal states are not merged.
pub fn waveform_to_wells(wave: WaveT, height: usize, p: usize, state: &State, t: &PieceTables) -> (r:
    Vec<State>)
    requires
        t.wf(),
        p < t.pieces(),
        well_wf(state.well@),
        state.score <= MAX_SCORE,
    ensures
        views(r@) == wells_of(t, wave, height as int, p as int, state@),
        forall|i: int| 0 <= i < r@.len() ==> well_wf(#[trigger] r@[i].well@),
{
    let mut wells: Vec<State> = Vec::new();
    let mut w = wave;
    let mut b: usize = 0;
    assert(wave >> 0u64 == wave) by (bit_vector);
    while b < WAVE_SIZE
        invariant
            t.wf(),
            p < t.pieces(),
            well_wf(state.well@),
            state.score <= MAX_SCORE,
            0 <= b <= WAVE_SIZE,
            w == wave >> (b as u64),
            views(wells@) == placements(t, wave, height as int, p as int, state@, b as nat),
            forall|i: int| 0 <= i < wells@.len() ==> well_wf(#[trigger] wells@[i].well@),
        decreases WAVE_SIZE - b,
    {
        let ghost bb = b as u64;
        assert(w % 2 == (w & 1) && w >> 1u64 == wave >> ((bb + 1) as u64)) by (bit_vector)
            requires
                w == wave >> bb,
                bb < 40,
        ;
        if w % 2 == 1 {
            let next = place_pose(state, WAVE_SIZE - 1 - b, height, p, t);
            wells.push(next);
            assert(views(wells@) =~= placements(t, wave, height as int, p as int, state@, b as nat).push(next@));
        } else {
            assert(views(wells@) =~= placements(t, wave, height as int, p as int, state@, (b + 1) as nat));
        }
        w = w >> 1;
        b += 1;
    }
    wells
}

/// Poses whose lowest cell would stand above the top of the well at `height`.
pub open spec fn floor_mask(t: &PieceTables, p: int, height: int) -> u64 {
    if 0 <= height < 4 {
        t.height_mask@[p]@[3 - height]
    } else {
        0
    }
}

/// The reachable poses at the `i`-th height below the surface of the well,
/// each pass starting from what the pass above it reached.
pub open spec fn chain(t: &PieceTables, p: int, well: Seq<u16>, i: nat) -> u64
    decreases i,
{
    if i == 0 {
        step_spec(t, t.empty_mask@[p], p, well_height(well), well)
    } else {
        step_spec(t, chain(t, p, well, (i - 1) as nat), p, well_height(well) + i, well)
    }
}

pub open spec fn raw_wave(t: &PieceTables, p: int, well: Seq<u16>, i: nat) -> u64 {
    chain(t, p, well, i) & !floor_mask(t, p, well_height(well) + i)
}

/// Whether the scan computes a pass at the `i`-th height: something was
/// reached above it and the window still overlaps the well.
pub open spec fn scan_continues(t: &PieceTables, p: int, well: Seq<u16>, i: nat) -> bool {
    &&& well_height(well) + i + 1 < WELL_HEIGHT
    &&& if i == 0 {
        t.empty_mask@[p] != 0
    } else {
        chain(t, p, well, (i - 1) as nat) != 0
    }
}

/// The resting poses at pass `i` of `n`: reached there, and not reached one row lower.
pub open spec fn resting_wave(t: &PieceTables, p: int, well: Seq<u16>, i: nat, n: nat) -> u64 {
    if i + 1 < n {
        raw_wave(t, p, well, i) & !raw_wave(t, p, well, i + 1)
    } else {
        raw_wave(t, p, well, i)
    }
}

/// The waves of the resting scan of piece `p`, one for each height it passes.
pub open spec fn resting_list(t: &PieceTables, p: int, well: Seq<u16>, r: Seq<(u64, usize)>) -> bool {
    &&& forall|i: nat| i < r.len() ==> #[trigger] scan_continues(t, p, well, i)
    &&& !scan_continues(t, p, well, r.len())
    &&& forall|i: int|
        0 <= i < r.len() ==> (#[trigger] r[i]).1 == well_height(well) + i && r[i].0
            == resting_wave(t, p, well, i as nat, r.len())
}

pub open spec fn resting_spec(t: &PieceTables, p: int, well: Seq<u16>) -> Seq<(u64, usize)> {
    choose|r: Seq<(u64, usize)>| resting_list(t, p, well, r)
}

proof fn lemma_resting_unique(t: &PieceTables, p: int, well: Seq<u16>, r: Seq<(u64, usize)>)
    requires
        resting_list(t, p, well, r),
    ensures
        r == resting_spec(t, p, well),
{
    let q = resting_spec(t, p, well);
    assert(resting_list(t, p, well, q));
    if q.len() < r.len() {
        assert(scan_continues(t, p, well, q.len()));
    }
    if r.len() < q.len() {
        assert(scan_continues(t, p, well, r.len()));
    }
    assert(q.len() == r.len());
    assert forall|i: int| 0 <= i < r.len() implies r[i] == q[i] by {
        assert(r[i].1 == q[i].1);
        assert(r[i].0 == q[i].0);
    }
    assert(r =~= q);
}

/// All resting placements of piece `p`: for each height from the surface of
/// the well down, the poses that reach it and can go no lower.
pub fn resting_waveforms(p: usize, well: &WellT, t: &PieceTables) -> (r: Vec<(WaveT, usize)>)
    requires
        t.wf(),
        p < t.pieces(),
        well_wf(well@),
    ensures
        resting_list(t, p as int, well@, r@),
        r@ == resting_spec(t, p as int, well@),
{
    let h0 = get_well_height(well);
    let mut height = h0;
    let mut waves: Vec<(WaveT, usize)> = Vec::new();
    let mut w = t.empty_mask[p];
    while w > 0 && height + 1 < WELL_HEIGHT
        invariant
            t.wf(),
            p < t.pieces(),
            well_wf(well@),
            h0 == well_height(well@),
            h0 <= EFF_HEIGHT,
            height == h0 + waves@.len(),
            height <= WELL_HEIGHT,
            w == if waves@.len() == 0 {
                t.empty_mask@[p as int]
            } else {
                chain(t, p as int, well@, (waves@.len() - 1) as nat)
            },
            forall|i: nat| i < waves@.len() ==> #[trigger] scan_continues(t, p as int, well@, i),
            forall|i: int|
                0 <= i < waves@.len() ==> (#[trigger] waves@[i]).1 == h0 + i && waves@[i].0
                    == raw_wave(t, p as int, well@, i as nat),
        decreases WELL_HEIGHT - height,
    {
        assert(scan_continues(t, p as int, well@, waves@.len() as nat));
        w = waveform_step(w, p, height, well, t);
        let h_mask = if height < 4 {
            t.height_mask[p][3 - height]
        } else {
            0
        };
        waves.push((w & !h_mask, height));
        height += 1;
    }
    let len = waves.len();
    let mut i: usize = 0;
    while i + 1 < len
        invariant
            len == waves@.len(),
            len <= WELL_HEIGHT,
            i <= len,
            forall|j: int|
                0 <= j < len ==> (#[trigger] waves@[j]).1 == h0 + j && waves@[j].0 == if j < i {
                    resting_wave(t, p as int, well@, j as nat, len as nat)
                } else {
                    raw_wave(t, p as int, well@, j as nat)
                },
        decreases len - i,
    {
        let next = waves[i + 1].0;
        let cur = waves[i];
        waves.set(i, (cur.0 & !next, cur.1));
        i += 1;
    }
    proof {
        lemma_resting_unique(t, p as int, well@, waves@);
    }
    waves
}

/// The poses of `wave` that fill window row `r` above `height` completely.
pub open spec fn fill_slice(t: &PieceTables, wave: u64, height: int, p: int, well: Seq<u16>, r: int) -> u64 {
    t.score_mask@[p]@[window_row(height, well, r) as int]@[r] & wave
}

/// Bits set in an odd number of the four words.
pub open spec fn sym1(a: u64, b: u64, c: u64, d: u64) -> u64 {
    a ^ b ^ c ^ d
}

/// Bits for which an odd number of pairs of the four words are both set.
pub open spec fn sym2(a: u64, b: u64, c: u64, d: u64) -> u64 {
    (a & b) ^ (a & c) ^ (a & d) ^ (b & c) ^ (b & d) ^ (c & d)
}

/// Bits for which an odd number of triples of the four words are all set.
pub open spec fn sym3(a: u64, b: u64, c: u64, d: u64) -> u64 {
    (a & b & c) ^ (a & b & d) ^ (a & c & d) ^ (b & c & d)
}

pub open spec fn class0(a: u64, b: u64, c: u64, d: u64, w: u64) -> u64 {
    !a & !b & !c & !d & w
}

pub open spec fn class1(a: u64, b: u64, c: u64, d: u64, w: u64) -> u64 {
    sym1(a, b, c, d) & !sym3(a, b, c, d) & w
}

pub open spec fn class2(a: u64, b: u64, c: u64, d: u64, w: u64) -> u64 {
    sym2(a, b, c, d) & !sym3(a, b, c, d) & w
}

pub open spec fn class3(a: u64, b: u64, c: u64, d: u64, w: u64) -> u64 {
    sym3(a, b, c, d) & w
}

pub open spec fn class4(a: u64, b: u64, c: u64, d: u64, w: u64) -> u64 {
    a & b & c & d & w
}

/// The bits of `w` that are set in exactly `s` of the four words.
pub open spec fn clear_class(a: u64, b: u64, c: u64, d: u64, w: u64, s: int) -> u64 {
    if s == 0 {
        class0(a, b, c, d, w)
    } else if s == 1 {
        class1(a, b, c, d, w)
    } else if s == 2 {
        class2(a, b, c, d, w)
    } else if s == 3 {
        class3(a, b, c, d, w)
    } else {
        class4(a, b, c, d, w)
    }
}

/// In how many of the four words bit `i` is set.
pub open spec fn set_count(a: u64, b: u64, c: u64, d: u64, i: u64) -> int {
    ((a >> i) & 1u64) + ((b >> i) & 1u64) + ((c >> i) & 1u64) + ((d >> i) & 1u64)
}

/// The poses of `wave` that clear `s` lines when dropped at `height`.
pub open spec fn score_class(t: &PieceTables, wave: u64, height: int, p: int, well: Seq<u16>, s: int) -> u64 {
    clear_class(
        fill_slice(t, wave, height, p, well, 0),
        fill_slice(t, wave, height, p, well, 1),
        fill_slice(t, wave, height, p, well, 2),
        fill_slice(t, wave, height, p, well, 3),
        wave,
        s,
    )
}

/// The line-clear classes split a wave: together they make it up, and no
/// pose stands in two of them.
pub proof fn lemma_classes_partition(a: u64, b: u64, c: u64, d: u64, w: u64)
    by (bit_vector)
    ensures
        class0(a, b, c, d, w) | class1(a, b, c, d, w) | class2(a, b, c, d, w) | class3(a, b, c, d, w)
            | class4(a, b, c, d, w) == w,
        class0(a, b, c, d, w) & class1(a, b, c, d, w) == 0,
        class0(a, b, c, d, w) & class2(a, b, c, d, w) == 0,
        class0(a, b, c, d, w) & class3(a, b, c, d, w) == 0,
        class0(a, b, c, d, w) & class4(a, b, c, d, w) == 0,
        class1(a, b, c, d, w) & class2(a, b, c, d, w) == 0,
        class1(a, b, c, d, w) & class3(a, b, c, d, w) == 0,
        class1(a, b, c, d, w) & class4(a, b, c, d, w) == 0,
        class2(a, b, c, d, w) & class3(a, b, c, d, w) == 0,
        class2(a, b, c, d, w) & class4(a, b, c, d, w) == 0,
        class3(a, b, c, d, w) & class4(a, b, c, d, w) == 0,
{
}

/// A pose stands in class `s` exactly when it is in the wave and set in `s`
/// of the four fill slices.
pub proof fn lemma_class_counts(a: u64, b: u64, c: u64, d: u64, w: u64, i: u64)
    by (bit_vector)
    requires
        i < 64,
    ensures
        bit(class0(a, b, c, d, w), i) == (bit(w, i) && set_count(a, b, c, d, i) == 0),
        bit(class1(a, b, c, d, w), i) == (bit(w, i) && set_count(a, b, c, d, i) == 1),
        bit(class2(a, b, c, d, w), i) == (bit(w, i) && set_count(a, b, c, d, i) == 2),
        bit(class3(a, b, c, d, w), i) == (bit(w, i) && set_count(a, b, c, d, i) == 3),
        bit(class4(a, b, c, d, w), i) == (bit(w, i) && set_count(a, b, c, d, i) == 4),
{
}

proof fn lemma_classes_exhausted(a: u64, b: u64, c: u64, d: u64, w: u64)
    by (bit_vector)
    ensures
        0u64 | class0(a, b, c, d, w) == w ==> class1(a, b, c, d, w) == 0 && class2(a, b, c, d, w) == 0
            && class3(a, b, c, d, w) == 0 && class4(a, b, c, d, w) == 0,
        0u64 | class0(a, b, c, d, w) | class1(a, b, c, d, w) == w ==> class2(a, b, c, d, w) == 0
            && class3(a, b, c, d, w) == 0 && class4(a, b, c, d, w) == 0,
        0u64 | class0(a, b, c, d, w) | class1(a, b, c, d, w) | class2(a, b, c, d, w) == w
            ==> class3(a, b, c, d, w) == 0 && class4(a, b, c, d, w) == 0,
        0u64 | class0(a, b, c, d, w) | class1(a, b, c, d, w) | class2(a, b, c, d, w) | class3(
            a,
            b,
            c,
            d,
            w,
        ) == w ==> class4(a, b, c, d, w) == 0,
        class0(a, b, c, d, w) == w ==> 0u64 | class0(a, b, c, d, w) == w,
        class1(a, b, c, d, w) | class0(a, b, c, d, w) == w ==> 0u64 | class0(a, b, c, d, w) | class1(
            a,
            b,
            c,
            d,
            w,
        ) == w,
        class2(a, b, c, d, w) | class1(a, b, c, d, w) | class0(a, b, c, d, w) == w ==> 0u64 | class0(
            a,
            b,
            c,
            d,
            w,
        ) | class1(a, b, c, d, w) | class2(a, b, c, d, w) == w,
        class3(a, b, c, d, w) | class2(a, b, c, d, w) | class1(a, b, c, d, w) | class0(a, b, c, d, w)
            == w ==> 0u64 | class0(a, b, c, d, w) | class1(a, b, c, d, w) | class2(a, b, c, d, w)
            | class3(a, b, c, d, w) == w,
        class0(a, b, c, d, w) & w == class0(a, b, c, d, w),
        class1(a, b, c, d, w) & w == class1(a, b, c, d, w),
        class2(a, b, c, d, w) & w == class2(a, b, c, d, w),
        class3(a, b, c, d, w) & w == class3(a, b, c, d, w),
        class4(a, b, c, d, w) & w == class4(a, b, c, d, w),
{
}

/// The union of the classes below `n`.
pub open spec fn classes_below(t: &PieceTables, wave: u64, height: int, p: int, well: Seq<u16>, n: int) -> u64
    decreases n,
{
    if n <= 0 {
        0
    } else {
        classes_below(t, wave, height, p, well, n - 1) | score_class(t, wave, height, p, well, n - 1)
    }
}

proof fn lemma_classes_facts(t: &PieceTables, wave: u64, height: int, p: int, well: Seq<u16>)
    ensures
        forall|k: int| 0 <= k < 5 ==> #[trigger] score_class(t, wave, height, p, well, k) & wave
            == score_class(t, wave, height, p, well, k),
        forall|n: int, k: int|
            1 <= n <= k < 5 && #[trigger] classes_below(t, wave, height, p, well, n) == wave
                ==> #[trigger] score_class(t, wave, height, p, well, k) == 0,
{
    let a = fill_slice(t, wave, height, p, well, 0);
    let b = fill_slice(t, wave, height, p, well, 1);
    let c = fill_slice(t, wave, height, p, well, 2);
    let d = fill_slice(t, wave, height, p, well, 3);
    lemma_classes_exhausted(a, b, c, d, wave);
    assert(classes_below(t, wave, height, p, well, 0) == 0);
    assert(classes_below(t, wave, height, p, well, 1) == 0u64 | class0(a, b, c, d, wave));
    assert(classes_below(t, wave, height, p, well, 2) == 0u64 | class0(a, b, c, d, wave) | class1(a, b, c, d, wave));
    assert(classes_below(t, wave, height, p, well, 3) == 0u64 | class0(a, b, c, d, wave) | class1(a, b, c, d, wave)
        | class2(a, b, c, d, wave));
    assert(classes_below(t, wave, height, p, well, 4) == 0u64 | class0(a, b, c, d, wave) | class1(a, b, c, d, wave)
        | class2(a, b, c, d, wave) | class3(a, b, c, d, wave));
}

/// For each window row, the poses of `wave` that fill it completely.
pub fn score_slice(wave: WaveT, height: usize, p: usize, well: &WellT, t: &PieceTables) -> (r: [WaveT; 4])
    requires
        t.wf(),
        p < t.pieces(),
        well_wf(well@),
    ensures
        forall|i: int| 0 <= i < 4 ==> #[trigger] r@[i] == fill_slice(t, wave, height as int, p as int, well@, i),
{
    let window = well_slice(height, well);
    let mut out: [WaveT; 4] = [0; 4];
    let mut i: usize = 0;
    while i < 4
        invariant
            t.wf(),
            p < t.pieces(),
            well_wf(well@),
            0 <= i <= 4,
            forall|k: int| 0 <= k < 4 ==> #[trigger] window@[k] == window_row(height as int, well@, k),
            forall|j: int| 0 <= j < i ==> #[trigger] out@[j] == fill_slice(t, wave, height as int, p as int, well@, j),
        decreases 4 - i,
    {
        assert(window@[i as int] <= FULL_ROW);
        assert(t.score_mask@[p as int]@.len() == 1024);
        out[i] = t.score_mask[p][window[i] as usize][i] & wave;
        i += 1;
    }
    out
}

/// Splits `wave` by the number of lines that each pose clears: entry `s`
/// holds the poses that clear `s` lines.
pub fn scores(wave: WaveT, height: usize, p: usize, well: &WellT, t: &PieceTables) -> (r: [WaveT; 5])
    requires
        t.wf(),
        p < t.pieces(),
        well_wf(well@),
    ensures
        forall|s: int| 0 <= s < 5 ==> #[trigger] r@[s] == score_class(t, wave, height as int, p as int, well@, s),
{
    let sl = score_slice(wave, height, p, well, t);
    let (a, b, c, d) = (sl[0], sl[1], sl[2], sl[3]);
    proof {
        lemma_classes_exhausted(a, b, c, d, wave);
    }
    let mut score: [WaveT; 5] = [0; 5];
    score[0] = !a & !b & !c & !d & wave;
    if score[0] == wave {
        assert(score@ =~= seq![class0(a, b, c, d, wave), 0, 0, 0, 0]);
        return score;
    }
    let e3 = (a & b & c) ^ (a & b & d) ^ (a & c & d) ^ (b & c & d);
    score[1] = (a ^ b ^ c ^ d) & !e3 & wave;
    if score[1] | score[0] == wave {
        assert(score@ =~= seq![class0(a, b, c, d, wave), class1(a, b, c, d, wave), 0, 0, 0]);
        return score;
    }
    score[2] = ((a & b) ^ (a & c) ^ (a & d) ^ (b & c) ^ (b & d) ^ (c & d)) & !e3 & wave;
    if score[2] | score[1] | score[0] == wave {
        return score;
    }
    score[3] = e3 & wave;
    if score[3] | score[2] | score[1] | score[0] == wave {
        return score;
    }
    score[4] = a & b & c & d & wave;
    score
}

/// Whether some pose of class `s` has its lowest cell at window offset `r`.
pub open spec fn hits(t: &PieceTables, wave: u64, height: int, p: int, well: Seq<u16>, s: int, r: int) -> bool {
    t.height_mask@[p]@[r] & score_class(t, wave, height, p, well, s) != 0
}

/// The stack height that such a pose leaves: the lower of the well's height
/// and the piece's top row, raised by the lines it clears.
pub open spec fn candidate(height: int, well: Seq<u16>, s: int, r: int) -> int {
    let top = height + r - 4;
    (if well_height(well) < top { well_height(well) } else { top }) + s
}

proof fn lemma_later_rows_miss(x: u64, h1: u64, h2: u64)
    by (bit_vector)
    requires
        h1 & x == x,
        h1 & h2 == 0,
    ensures
        h2 & x == 0,
{
}

/// The highest stack height that a pose of `wave` can leave, over all its
/// line-clear classes; `-WELL_LINE` where no pose gives one.
pub fn get_wave_height(wave: WaveT, wave_height: usize, p: usize, well: &WellT, t: &PieceTables) -> (r: isize)
    requires
        t.wf(),
        p < t.pieces(),
        well_wf(well@),
        wave_height as int + 4 <= isize::MAX,
    ensures
        wave == 0 ==> r == -(WELL_LINE as int),
        r >= -(WELL_LINE as int),
        forall|s: int, rr: int|
            0 <= s < 5 && 0 <= rr < 4 && #[trigger] hits(t, wave, wave_height as int, p as int, well@, s, rr)
                ==> r >= candidate(wave_height as int, well@, s, rr),
        r == -(WELL_LINE as int) || exists|s: int, rr: int|
            0 <= s < 5 && 0 <= rr < 4 && #[trigger] hits(t, wave, wave_height as int, p as int, well@, s, rr)
                && r == candidate(wave_height as int, well@, s, rr),
{
    let well_h = get_well_height(well) as isize;
    proof {
        lemma_classes_facts(t, wave, wave_height as int, p as int, well@);
    }
    if wave == 0 {
        assert forall|s: int, rr: int| 0 <= s < 5 && 0 <= rr < 4 implies !#[trigger] hits(t, wave, wave_height as int, p as int, well@, s, rr) by {
            let x = score_class(t, wave, wave_height as int, p as int, well@, s);
            let h = t.height_mask@[p as int]@[rr];
            assert(x & wave == x);
            assert(h & x == 0) by (bit_vector)
                requires
                    x & wave == x,
                    wave == 0,
            ;
        }
        return -(WELL_LINE as isize);
    }
    let sc = scores(wave, wave_height, p, well, t);
    let mut max_height: isize = -(WELL_LINE as isize);
    let mut total: u64 = 0;
    let mut s: usize = 0;
    let mut finished = false;
    while s < 5 && !finished
        invariant
            t.wf(),
            p < t.pieces(),
            well_wf(well@),
            wave_height as int + 4 <= isize::MAX,
            well_h == well_height(well@),
            0 <= well_h <= EFF_HEIGHT,
            0 <= s <= 5,
            forall|k: int| 0 <= k < 5 ==> #[trigger] sc@[k] == score_class(t, wave, wave_height as int, p as int, well@, k),
            forall|k: int| 0 <= k < 5 ==> #[trigger] score_class(t, wave, wave_height as int, p as int, well@, k) & wave
                == score_class(t, wave, wave_height as int, p as int, well@, k),
            total == classes_below(t, wave, wave_height as int, p as int, well@, s as int),
            forall|n: int, k: int|
                1 <= n <= k < 5 && #[trigger] classes_below(t, wave, wave_height as int, p as int, well@, n) == wave
                    ==> #[trigger] score_class(t, wave, wave_height as int, p as int, well@, k) == 0,
            finished ==> forall|k: int| s <= k < 5 ==> #[trigger] score_class(t, wave, wave_height as int, p as int, well@, k) == 0,
            max_height >= -(WELL_LINE as int),
            forall|s2: int, rr: int|
                0 <= s2 < s && 0 <= rr < 4 && #[trigger] hits(t, wave, wave_height as int, p as int, well@, s2, rr)
                    ==> max_height >= candidate(wave_height as int, well@, s2, rr),
            max_height == -(WELL_LINE as int) || exists|s2: int, rr: int|
                0 <= s2 < 5 && 0 <= rr < 4 && #[trigger] hits(t, wave, wave_height as int, p as int, well@, s2, rr)
                    && max_height == candidate(wave_height as int, well@, s2, rr),
        decreases 5 - s,
    {
        let wsc = sc[s] & wave;
        let mut row: usize = 0;
        let mut covered = false;
        while row < 4 && !covered
            invariant
                t.wf(),
                p < t.pieces(),
                well_wf(well@),
                wave_height as int + 4 <= isize::MAX,
                well_h == well_height(well@),
                0 <= well_h <= EFF_HEIGHT,
                0 <= s < 5,
                0 <= row <= 4,
                wsc == score_class(t, wave, wave_height as int, p as int, well@, s as int),
                covered ==> forall|rr: int| row <= rr < 4 ==> #[trigger] t.height_mask@[p as int]@[rr] & wsc == 0,
                max_height >= -(WELL_LINE as int),
                forall|s2: int, rr: int|
                    (0 <= s2 < s && 0 <= rr < 4 || s2 == s && 0 <= rr < row) && #[trigger] hits(t, wave, wave_height as int, p as int, well@, s2, rr)
                        ==> max_height >= candidate(wave_height as int, well@, s2, rr),
                max_height == -(WELL_LINE as int) || exists|s2: int, rr: int|
                    0 <= s2 < 5 && 0 <= rr < 4 && #[trigger] hits(t, wave, wave_height as int, p as int, well@, s2, rr)
                        && max_height == candidate(wave_height as int, well@, s2, rr),
            decreases 4 - row,
        {
            let h = t.height_mask[p][row];
            if h & wsc != 0 {
                let top = (wave_height + row) as isize - 4;
                let low = if well_h < top { well_h } else { top };
                let tmp_height = low + s as isize;
                assert(hits(t, wave, wave_height as int, p as int, well@, s as int, row as int));
                assert(tmp_height == candidate(wave_height as int, well@, s as int, row as int));
                if tmp_height > max_height {
                    max_height = tmp_height;
                }
            }
            if h & wsc == wsc {
                covered = true;
                proof {
                    assert forall|rr: int| row < rr < 4 implies #[trigger] t.height_mask@[p as int]@[rr] & wsc == 0 by {
                        lemma_later_rows_miss(wsc, h, t.height_mask@[p as int]@[rr]);
                    }
                }
            }
            row += 1;
        }
        total = total | wsc;
        assert(total == classes_below(t, wave, wave_height as int, p as int, well@, s + 1));
        if total == wave {
            finished = true;
        }
        s += 1;
    }
    proof {
        assert forall|s2: int, rr: int|
            0 <= s2 < 5 && 0 <= rr < 4 && #[trigger] hits(t, wave, wave_height as int, p as int, well@, s2, rr)
                implies max_height >= candidate(wave_height as int, well@, s2, rr) by {
            if s2 >= s {
                let x = score_class(t, wave, wave_height as int, p as int, well@, s2);
                let h = t.height_mask@[p as int]@[rr];
                assert(x == 0);
                assert(h & x == 0) by (bit_vector)
                    requires
                        x == 0,
                ;
            }
        }
    }
    max_height
}

/// What `get_wave_height` returns: at least `-WELL_LINE` and every candidate
/// of a hit, and equal to `-WELL_LINE` or to one of them.
pub open spec fn is_wave_height(t: &PieceTables, wave: u64, height: int, p: int, well: Seq<u16>, v: int) -> bool {
    &&& wave == 0 ==> v == -(WELL_LINE as int)
    &&& v >= -(WELL_LINE as int)
    &&& forall|s: int, rr: int|
        0 <= s < 5 && 0 <= rr < 4 && #[trigger] hits(t, wave, height, p, well, s, rr) ==> v >= candidate(
            height,
            well,
            s,
            rr,
        )
    &&& v == -(WELL_LINE as int) || exists|s: int, rr: int|
        0 <= s < 5 && 0 <= rr < 4 && #[trigger] hits(t, wave, height, p, well, s, rr) && v == candidate(
            height,
            well,
            s,
            rr,
        )
}

pub open spec fn wave_height_spec(t: &PieceTables, wave: u64, height: int, p: int, well: Seq<u16>) -> int {
    choose|v: int| is_wave_height(t, wave, height, p, well, v)
}

proof fn lemma_wave_height_unique(t: &PieceTables, wave: u64, height: int, p: int, well: Seq<u16>, v: int)
    requires
        is_wave_height(t, wave, height, p, well, v),
    ensures
        v == wave_height_spec(t, wave, height, p, well),
{
    let u = wave_height_spec(t, wave, height, p, well);
    assert(is_wave_height(t, wave, height, p, well, u));
    if u != -(WELL_LINE as int) {
        let (s, rr) = choose|s: int, rr: int|
            0 <= s < 5 && 0 <= rr < 4 && #[trigger] hits(t, wave, height, p, well, s, rr) && u == candidate(height, well, s, rr);
        assert(v >= u);
    }
    if v != -(WELL_LINE as int) {
        let (s, rr) = choose|s: int, rr: int|
            0 <= s < 5 && 0 <= rr < 4 && #[trigger] hits(t, wave, height, p, well, s, rr) && v == candidate(height, well, s, rr);
        assert(u >= v);
    }
}

/// The highest stack height over a list of waves; `-WELL_LINE` for none.
pub open spec fn list_height(t: &PieceTables, p: int, well: Seq<u16>, waves: Seq<(u64, usize)>) -> int
    decreases waves.len(),
{
    if waves.len() == 0 {
        -(WELL_LINE as int)
    } else {
        let prev = list_height(t, p, well, waves.drop_last());
        let last = waves.last();
        let h = wave_height_spec(t, last.0, last.1 as int, p, well);
        if h > prev {
            h
        } else {
            prev
        }
    }
}

/// The highest stack height that piece `p` can leave in `well`.
pub open spec fn piece_height(t: &PieceTables, p: int, well: Seq<u16>) -> int {
    list_height(t, p, well, resting_spec(t, p, well))
}

/// `q` is the first piece of least height, or 0 where no height is below `WELL_HEIGHT`.
pub open spec fn is_lowest_piece(heights: Seq<int>, q: int) -> bool {
    &&& 0 <= q < heights.len()
    &&& if exists|i: int| 0 <= i < heights.len() && #[trigger] heights[i] < WELL_HEIGHT {
        &&& heights[q] < WELL_HEIGHT
        &&& forall|i: int| 0 <= i < heights.len() ==> heights[q] <= #[trigger] heights[i]
        &&& forall|i: int| 0 <= i < q ==> heights[q] < #[trigger] heights[i]
    } else {
        q == 0
    }
}

pub open spec fn piece_heights(t: &PieceTables, well: Seq<u16>) -> Seq<int> {
    Seq::new(t.pieces() as nat, |q: int| piece_height(t, q, well))
}

/// How the next piece is chosen.
#[derive(Clone, Copy, Debug, PartialEq, Eq)]
pub enum PiecePolicy {
    /// The piece whose best placement leaves the lowest stack: the worst for the player.
    Adversarial,
    /// A piece drawn uniformly from a generator seeded with `seed`.
    Random { seed: u64 },
}

/// Relies on rand's `StdRng::seed_from_u64` and `Rng::gen_range`: a value of
/// `0..n`, which `gen_range` draws for any non-empty range.
#[verifier::external_body]
fn random_index(seed: u64, n: usize) -> (r: usize)
    requires
        n > 0,
    ensures
        r < n,
{
    rand::rngs::StdRng::seed_from_u64(seed).gen_range(0..n)
}

/// The highest stack height over the waves of piece `p`.
fn list_max_height(waves: &Vec<(WaveT, usize)>, p: usize, well: &WellT, t: &PieceTables) -> (r: isize)
    requires
        t.wf(),
        p < t.pieces(),
        well_wf(well@),
        forall|i: int| 0 <= i < waves@.len() ==> (#[trigger] waves@[i]).1 <= WELL_HEIGHT,
    ensures
        r == list_height(t, p as int, well@, waves@),
{
    let mut best: isize = -(WELL_LINE as isize);
    let mut i: usize = 0;
    while i < waves.len()
        invariant
            t.wf(),
            p < t.pieces(),
            well_wf(well@),
            0 <= i <= waves@.len(),
            forall|j: int| 0 <= j < waves@.len() ==> (#[trigger] waves@[j]).1 <= WELL_HEIGHT,
            best == list_height(t, p as int, well@, waves@.subrange(0, i as int)),
        decreases waves@.len() - i,
    {
        let (w, h) = waves[i];
        let new_height = get_wave_height(w, h, p, well, t);
        proof {
            lemma_wave_height_unique(t, w, h as int, p as int, well@, new_height as int);
            let sub = waves@.subrange(0, i + 1);
            assert(sub.drop_last() =~= waves@.subrange(0, i as int));
        }
        if new_height > best {
            best = new_height;
        }
        i += 1;
    }
    assert(waves@.subrange(0, waves@.len() as int) =~= waves@);
    best
}

/// The resting waves of every piece, and the piece that `policy` picks.
pub fn get_legal(state: &State, t: &PieceTables, policy: PiecePolicy) -> (r: (usize, Vec<Vec<(WaveT, usize)>>))
    requires
        t.wf(),
        well_wf(state.well@),
    ensures
        r.0 < t.pieces(),
        r.1@.len() == t.pieces(),
        forall|q: int| 0 <= q < t.pieces() ==> (#[trigger] r.1@[q])@ == resting_spec(t, q, state.well@),
        policy == PiecePolicy::Adversarial ==> is_lowest_piece(piece_heights(t, state.well@), r.0 as int),
{
    let n = t.empty_mask.len();
    let mut all_waves: Vec<Vec<(WaveT, usize)>> = Vec::new();
    let mut legal_p: usize = 0;
    let mut lowest_height: isize = WELL_HEIGHT as isize;
    let ghost heights = piece_heights(t, state.well@);
    let mut q: usize = 0;
    while q < n
        invariant
            t.wf(),
            well_wf(state.well@),
            n == t.pieces(),
            heights == piece_heights(t, state.well@),
            0 <= q <= n,
            all_waves@.len() == q,
            forall|j: int| 0 <= j < q ==> (#[trigger] all_waves@[j])@ == resting_spec(t, j, state.well@),
            legal_p < n,
            q > 0 ==> legal_p < q,
            (exists|i: int| 0 <= i < q && #[trigger] heights[i] < WELL_HEIGHT) ==> {
                &&& lowest_height == heights[legal_p as int]
                &&& lowest_height < WELL_HEIGHT
                &&& forall|i: int| 0 <= i < q ==> lowest_height <= #[trigger] heights[i]
                &&& forall|i: int| 0 <= i < legal_p ==> lowest_height < #[trigger] heights[i]
            },
            !(exists|i: int| 0 <= i < q && #[trigger] heights[i] < WELL_HEIGHT) ==> legal_p == 0
                && lowest_height == WELL_HEIGHT,
        decreases n - q,
    {
        let waves = resting_waveforms(q, &state.well, t);
        proof {
            assert forall|i: int| 0 <= i < waves@.len() implies (#[trigger] waves@[i]).1 <= WELL_HEIGHT by {
                assert(scan_continues(t, q as int, state.well@, i as nat));
            }
        }
        let piece_h = list_max_height(&waves, q, &state.well, t);
        assert(piece_h == heights[q as int]);
        if piece_h < lowest_height {
            legal_p = q;
            lowest_height = piece_h;
        }
        all_waves.push(waves);
        q += 1;
    }
    let piece = match policy {
        PiecePolicy::Adversarial => legal_p,
        PiecePolicy::Random { seed } => random_index(seed, n),
    };
    (piece, all_waves)
}

/// The states reached by each wave of a list, wave after wave.
pub open spec fn moves_of(t: &PieceTables, p: int, s: (Seq<u16>, int), waves: Seq<(u64, usize)>) -> Seq<
    (Seq<u16>, int),
>
    decreases waves.len(),
{
    if waves.len() == 0 {
        seq![]
    } else {
        moves_of(t, p, s, waves.drop_last()) + wells_of(t, waves.last().0, waves.last().1 as int, p, s)
    }
}

/// Every state that the piece chosen by `policy` can leave behind, wave by wave.
pub fn single_move(state: &State, t: &PieceTables, policy: PiecePolicy) -> (r: Vec<State>)
    requires
        t.wf(),
        well_wf(state.well@),
        state.score <= MAX_SCORE,
    ensures
        exists|q: int|
            0 <= q < t.pieces() && (policy == PiecePolicy::Adversarial ==> is_lowest_piece(
                piece_heights(t, state.well@),
                q,
            )) && views(r@) == #[trigger] moves_of(t, q, state@, resting_spec(t, q, state.well@)),
        forall|i: int| 0 <= i < r@.len() ==> well_wf(#[trigger] r@[i].well@),
{
    let (piece, all_waves) = get_legal(state, t, policy);
    let waves = &all_waves[piece];
    let mut to_return: Vec<State> = Vec::new();
    let mut i: usize = 0;
    while i < waves.len()
        invariant
            t.wf(),
            well_wf(state.well@),
            state.score <= MAX_SCORE,
            piece < t.pieces(),
            0 <= i <= waves@.len(),
            views(to_return@) == moves_of(t, piece as int, state@, waves@.subrange(0, i as int)),
            forall|j: int| 0 <= j < to_return@.len() ==> well_wf(#[trigger] to_return@[j].well@),
        decreases waves@.len() - i,
    {
        let (w, h) = waves[i];
        let mut w_list = waveform_to_wells(w, h, piece, state, t);
        let ghost before = to_return@;
        let ghost added = w_list@;
        to_return.append(&mut w_list);
        proof {
            let sub = waves@.subrange(0, i + 1);
            assert(sub.drop_last() =~= waves@.subrange(0, i as int));
            assert(to_return@ =~= before + added);
            assert(views(to_return@) =~= views(before) + views(added));
        }
        i += 1;
    }
    assert(waves@.subrange(0, waves@.len() as int) =~= waves@);
    to_return
}

pub open spec fn square(k: int) -> int {
    k * k
}

/// Every placement keeps the score or raises it by the square of the lines it clears.
pub proof fn lemma_placements_score(t: &PieceTables, wave: u64, height: int, p: int, s: (Seq<u16>, int), n: nat)
    ensures
        forall|j: int| 0 <= j < placements(t, wave, height, p, s, n).len() ==> exists|k: int|
            0 <= k <= EFF_HEIGHT && #[trigger] placements(t, wave, height, p, s, n)[j].1 == s.1 + square(k),
        forall|j: int| 0 <= j < placements(t, wave, height, p, s, n).len() ==> #[trigger] placements(
            t,
            wave,
            height,
            p,
            s,
            n,
        )[j].1 >= s.1,
    decreases n,
{
    if n > 0 {
        lemma_placements_score(t, wave, height, p, s, (n - 1) as nat);
        let pose = WAVE_SIZE - n;
        let rows = stamped(s.0, t.piece_slice@[p]@[pose]@, height);
        lemma_survivors_len(rows);
        let k = cleared(rows);
        assert(k * k >= 0) by (nonlinear_arith);
        assert(place(t, s, p, height, pose).1 == s.1 + square(k));
        assert(0 <= k <= EFF_HEIGHT);
        let cur = placements(t, wave, height, p, s, n);
        assert forall|j: int| 0 <= j < cur.len() implies exists|k2: int|
            0 <= k2 <= EFF_HEIGHT && #[trigger] cur[j].1 == s.1 + square(k2) by {
            if j == cur.len() - 1 && bit(wave, (n - 1) as u64) {
                assert(cur[j].1 == s.1 + square(k));
            } else {
                assert(cur[j] == placements(t, wave, height, p, s, (n - 1) as nat)[j]);
            }
        }
    }
}

proof fn lemma_survivors_len(rows: Seq<u16>)
    ensures
        survivors(rows).len() <= rows.len(),
    decreases rows.len(),
{
    if rows.len() > 0 {
        lemma_survivors_len(rows.drop_first());
    }
}

/// An empty wave places nothing.
pub proof fn lemma_placements_empty(t: &PieceTables, height: int, p: int, s: (Seq<u16>, int), n: nat)
    requires
        n <= 64,
    ensures
        placements(t, 0, height, p, s, n) == Seq::<(Seq<u16>, int)>::empty(),
    decreases n,
{
    if n > 0 {
        lemma_placements_empty(t, height, p, s, (n - 1) as nat);
        let b = (n - 1) as u64;
        assert(!bit(0, b)) by (bit_vector)
            requires
                b < 64,
        ;
    }
}

proof fn lemma_grow_strict(a: u64, b: u64)
    by (bit_vector)
    requires
        b & a == a,
        b != a,
    ensures
        b > a,
{
}

/// The spread only grows, stays legal, and settles within as many layers as
/// the lattice has room for.
proof fn lemma_spread_settles(w: u64, mask: u64, n: nat)
    requires
        w & mask == w,
    ensures
        spread(w, mask, n) & mask == spread(w, mask, n),
        spread(w, mask, n) & w == w,
        (exists|k: nat| k <= n && #[trigger] settled_at(w, mask, k)) || spread(w, mask, n) >= w + n,
    decreases n,
{
    if n == 0 {
        assert(w & w == w) by (bit_vector);
    } else {
        let prev = spread(w, mask, (n - 1) as nat);
        lemma_spread_settles(w, mask, (n - 1) as nat);
        lemma_dilate_grows(prev, mask);
        let cur = dilate(prev, mask);
        assert(cur & w == w) by (bit_vector)
            requires
                cur & prev == prev,
                prev & w == w,
        ;
        if !(exists|k: nat| k <= n && #[trigger] settled_at(w, mask, k)) {
            assert(!settled_at(w, mask, (n - 1) as nat));
            lemma_grow_strict(prev, cur);
        }
    }
}

/// The closure is legal and no move enlarges it.
proof fn lemma_closure_settled(w: u64, mask: u64)
    requires
        w & mask == w,
    ensures
        closure(w, mask) & mask == closure(w, mask),
        dilate(closure(w, mask), mask) == closure(w, mask),
{
    let big: nat = 0x1_0000_0000_0000_0000;
    lemma_spread_settles(w, mask, big);
    let k = choose|k: nat| settled_at(w, mask, k);
    assert(settled_at(w, mask, k));
    lemma_spread_settles(w, mask, k);
}

/// Propagating a second time from the result of a propagation, with the same
/// piece, height and well, reaches exactly the same poses.
pub proof fn lemma_step_idempotent(t: &PieceTables, w: u64, p: int, height: int, well: Seq<u16>)
    ensures
        step_spec(t, step_spec(t, w, p, height, well), p, height, well) == step_spec(t, w, p, height, well),
{
    let m = legal_mask(t, p, height, well);
    let start = w & m;
    assert(start & m == start) by (bit_vector)
        requires
            start == w & m,
    ;
    lemma_closure_settled(start, m);
    let c = closure(start, m);
    assert(c & m == c);
    lemma_closure_of_settled(c, m);
}

/// Full rows among the rows `0 .. rows.len()` can only stand in `lo .. hi`.
proof fn lemma_cleared_bound(rows: Seq<u16>, lo: int, hi: int)
    requires
        0 <= lo <= hi,
        forall|i: int| 0 <= i < rows.len() && (i < lo || i >= hi) ==> rows[i] != FULL_ROW,
    ensures
        cleared(rows) <= hi - lo,
        cleared(rows) >= 0,
    decreases rows.len(),
{
    lemma_survivors_len(rows);
    if rows.len() > 0 {
        let rest = rows.drop_first();
        let lo2 = if lo > 0 { lo - 1 } else { 0 };
        let hi2 = if hi > 0 { hi - 1 } else { 0 };
        assert forall|i: int| 0 <= i < rest.len() && (i < lo2 || i >= hi2) implies rest[i] != FULL_ROW by {
            assert(rest[i] == rows[i + 1]);
        }
        lemma_cleared_bound(rest, lo2, hi2);
    }
}

/// No row of `rows` is full.
pub open spec fn no_full_row(rows: Seq<u16>) -> bool {
    forall|i: int| 0 <= i < rows.len() ==> #[trigger] rows[i] != FULL_ROW
}

/// Once a row is non-empty, every row below it is non-empty too.
pub open spec fn compact(rows: Seq<u16>) -> bool {
    forall|i: int, j: int| 0 <= i < j < rows.len() && #[trigger] rows[i] != 0 ==> #[trigger] rows[j] != 0
}

/// A placement into a well without full rows raises the score by the square
/// of 0 to 4 cleared lines.
pub proof fn lemma_place_score(t: &PieceTables, s: (Seq<u16>, int), p: int, height: int, pose: int)
    requires
        s.0.len() == EFF_HEIGHT,
        no_full_row(s.0),
    ensures
        place(t, s, p, height, pose).1 >= s.1,
        ({
            let d = place(t, s, p, height, pose).1 - s.1;
            d == 0 || d == 1 || d == 4 || d == 9 || d == 16
        }),
{
    let rows = stamped(s.0, t.piece_slice@[p]@[pose]@, height);
    let lo = if height - 4 > 0 { height - 4 } else { 0 };
    let hi = if height > lo { height } else { lo };
    assert forall|i: int| 0 <= i < rows.len() && (i < lo || i >= hi) implies rows[i] != FULL_ROW by {
        assert(rows[i] == s.0[i]);
    }
    lemma_cleared_bound(rows, lo, hi);
    let k = cleared(rows);
    assert(0 <= k <= 4);
    assert(k * k == 0 || k * k == 1 || k * k == 4 || k * k == 9 || k * k == 16) by (nonlinear_arith)
        requires
            0 <= k <= 4,
    ;
}

proof fn lemma_survivors_shape(rows: Seq<u16>)
    ensures
        no_full_row(survivors(rows)),
        (forall|i: int| 0 <= i < rows.len() ==> #[trigger] rows[i] != 0) ==> (forall|i: int|
            0 <= i < survivors(rows).len() ==> #[trigger] survivors(rows)[i] != 0),
        compact(rows) ==> compact(survivors(rows)),
    decreases rows.len(),
{
    if rows.len() > 0 {
        let rest = rows.drop_first();
        lemma_survivors_shape(rest);
        if compact(rows) {
            assert forall|i: int, j: int| 0 <= i < j < rest.len() && #[trigger] rest[i] != 0 implies #[trigger] rest[j] != 0 by {
                assert(rows[i + 1] != 0);
            }
            if rows[0] != 0 {
                assert forall|i: int| 0 <= i < rest.len() implies #[trigger] rest[i] != 0 by {
                    assert(rows[i + 1] == rest[i]);
                }
            }
        }
        if forall|i: int| 0 <= i < rows.len() ==> #[trigger] rows[i] != 0 {
            assert forall|i: int| 0 <= i < rest.len() implies #[trigger] rest[i] != 0 by {
                assert(rows[i + 1] == rest[i]);
            }
        }
        let sv = survivors(rows);
        if rows[0] != FULL_ROW {
            assert forall|i: int| 0 <= i < sv.len() && i > 0 implies sv[i] == survivors(rest)[i - 1] by {}
        }
    }
}

/// A placement leaves no full row, and it leaves the stack compact wherever
/// the piece laid over the well leaves it compact.
pub proof fn lemma_compact_gravity(t: &PieceTables, s: (Seq<u16>, int), p: int, height: int, pose: int)
    ensures
        no_full_row(place(t, s, p, height, pose).0),
        compact(stamped(s.0, t.piece_slice@[p]@[pose]@, height)) ==> compact(place(t, s, p, height, pose).0),
{
    let rows = stamped(s.0, t.piece_slice@[p]@[pose]@, height);
    lemma_survivors_shape(rows);
    lemma_survivors_len(rows);
    let sv = survivors(rows);
    let out = settle(rows);
    let z = cleared(rows);
    assert forall|i: int| 0 <= i < out.len() implies #[trigger] out[i] != FULL_ROW by {
        if i >= z {
            assert(out[i] == sv[i - z]);
        }
    }
    if compact(rows) {
        assert forall|i: int, j: int| 0 <= i < j < out.len() && #[trigger] out[i] != 0 implies #[trigger] out[j] != 0 by {
            assert(i >= z);
            assert(out[i] == sv[i - z]);
            assert(out[j] == sv[j - z]);
        }
    }
}

/// `x` is the state that some pose of piece `p` leaves at `height`.
pub open spec fn is_place_of(t: &PieceTables, s: (Seq<u16>, int), p: int, height: int, x: (Seq<u16>, int)) -> bool {
    exists|pose: int| 0 <= pose < WAVE_SIZE && x == #[trigger] place(t, s, p, height, pose)
}

proof fn lemma_placements_are_places(t: &PieceTables, wave: u64, height: int, p: int, s: (Seq<u16>, int), n: nat)
    requires
        n <= WAVE_SIZE,
    ensures
        forall|j: int| 0 <= j < placements(t, wave, height, p, s, n).len() ==> is_place_of(t, s, p, height, #[trigger] placements(t, wave, height, p, s, n)[j]),
    decreases n,
{
    if n > 0 {
        lemma_placements_are_places(t, wave, height, p, s, (n - 1) as nat);
        let cur = placements(t, wave, height, p, s, n);
        let prev = placements(t, wave, height, p, s, (n - 1) as nat);
        let last = place(t, s, p, height, WAVE_SIZE - n);
        assert(is_place_of(t, s, p, height, last));
        assert forall|j: int| 0 <= j < cur.len() implies is_place_of(t, s, p, height, #[trigger] cur[j]) by {
            if bit(wave, (n - 1) as u64) {
                assert(cur == prev.push(last));
                if j < prev.len() {
                    assert(cur[j] == prev[j]);
                } else {
                    assert(cur[j] == last);
                }
            } else {
                assert(cur == prev);
            }
        }
    }
}

/// Every state that a wave leaves in a well without full rows keeps the
/// score or raises it by 1, 4, 9 or 16.
pub proof fn lemma_monotone_score(t: &PieceTables, wave: u64, height: int, p: int, s: (Seq<u16>, int))
    requires
        s.0.len() == EFF_HEIGHT,
        no_full_row(s.0),
    ensures
        forall|j: int| 0 <= j < wells_of(t, wave, height, p, s).len() ==> {
            let d = (#[trigger] wells_of(t, wave, height, p, s)[j]).1 - s.1;
            d == 0 || d == 1 || d == 4 || d == 9 || d == 16
        },
{
    lemma_placements_are_places(t, wave, height, p, s, WAVE_SIZE as nat);
    let ws = wells_of(t, wave, height, p, s);
    assert forall|j: int| 0 <= j < ws.len() implies {
        let d = (#[trigger] ws[j]).1 - s.1;
        d == 0 || d == 1 || d == 4 || d == 9 || d == 16
    } by {
        assert(is_place_of(t, s, p, height, ws[j]));
        let pose = choose|pose: int| 0 <= pose < WAVE_SIZE && ws[j] == #[trigger] place(t, s, p, height, pose);
        lemma_place_score(t, s, p, height, pose);
    }
}

/// Every state that a wave leaves holds no full row, and is compact wherever
/// its piece laid over the well is.
pub proof fn lemma_wells_compact(t: &PieceTables, wave: u64, height: int, p: int, s: (Seq<u16>, int))
    ensures
        forall|j: int| 0 <= j < wells_of(t, wave, height, p, s).len() ==> no_full_row(#[trigger] wells_of(t, wave, height, p, s)[j].0),
        forall|j: int| 0 <= j < wells_of(t, wave, height, p, s).len() ==> compact_where_stamp_is(t, s, p, height, #[trigger] wells_of(t, wave, height, p, s)[j]),
{
    lemma_placements_are_places(t, wave, height, p, s, WAVE_SIZE as nat);
    let ws = wells_of(t, wave, height, p, s);
    assert forall|j: int| 0 <= j < ws.len() implies no_full_row(#[trigger] ws[j].0) && compact_where_stamp_is(t, s, p, height, ws[j]) by {
        assert(is_place_of(t, s, p, height, ws[j]));
        let pose = choose|pose: int| 0 <= pose < WAVE_SIZE && ws[j] == #[trigger] place(t, s, p, height, pose);
        lemma_compact_gravity(t, s, p, height, pose);
    }
}

/// `x` is left by a pose whose piece laid over the well is compact only if `x` is compact.
pub open spec fn compact_where_stamp_is(t: &PieceTables, s: (Seq<u16>, int), p: int, height: int, x: (Seq<u16>, int)) -> bool {
    exists|pose: int|
        0 <= pose < WAVE_SIZE && x == #[trigger] place(t, s, p, height, pose) && (compact(
            stamped(s.0, t.piece_slice@[p]@[pose]@, height),
        ) ==> compact(x.0))
}

} // verus!
