use vstd::prelude::*;
use crate::constants::{
    AEON, ALL_CONV, CHECKPOINTS, EFF_HEIGHT, FULL_ROW, HIDDEN, MASTER_BEAM_DEPTH, MASTER_BEAM_WIDTH,
    MASTER_MAX_PLAY, ROW_VALUES, TRAINING_BEAM_DEPTH, TRAINING_BEAM_WIDTH, TRAINING_MAX_PLAY,
    WAVE_SIZE,
};
use vstd::string::StringExecFns;

verus! {

/// One row of a well: bit set = cell occupied.
pub type RowT = u16;

/// A set of poses of one piece, one bit per pose.
pub type WaveT = u64;

/// The rows of a well, top row first.
pub type WellT = [RowT; EFF_HEIGHT];

/// Accumulated score: the sum of the squares of the lines cleared at each placement.
pub type ScoreT = u16;

/// A well is well formed when it holds no cell outside the playfield columns.
pub open spec fn well_wf(well: Seq<u16>) -> bool {
    &&& well.len() == EFF_HEIGHT
    &&& forall|i: int| 0 <= i < well.len() ==> #[trigger] well[i] <= FULL_ROW
}

/// A well and its score. Ordered first by score, then row by row from the top.
#[derive(Clone, Copy, Debug, Hash, PartialOrd, Ord)]
pub struct State {
    pub score: ScoreT,
    pub well: WellT,
}

impl View for State {
    type V = (Seq<u16>, int);

    open spec fn view(&self) -> (Seq<u16>, int) {
        (self.well@, self.score as int)
    }
}

impl PartialEq for State {
    fn eq(&self, other: &State) -> (r: bool)
        ensures
            r == (self.score == other.score && self.well@ == other.well@),
    {
        if self.score != other.score {
            return false;
        }
        let mut i: usize = 0;
        while i < EFF_HEIGHT
            invariant
                0 <= i <= EFF_HEIGHT,
                forall|j: int| 0 <= j < i ==> self.well@[j] == other.well@[j],
            decreases EFF_HEIGHT - i,
        {
            if self.well[i] != other.well[i] {
                return false;
            }
            i += 1;
        }
        assert(self.well@ =~= other.well@);
        true
    }
}

impl vstd::std_specs::cmp::PartialEqSpecImpl for State {
    open spec fn obeys_eq_spec() -> bool {
        true
    }

    open spec fn eq_spec(&self, other: &State) -> bool {
        self.score == other.score && self.well@ == other.well@
    }
}

impl Eq for State {
}

impl State {
    /// An empty well with score zero.
    pub fn new() -> (r: State)
        ensures
            r.score == 0,
            forall|i: int| 0 <= i < EFF_HEIGHT ==> r.well@[i] == 0,
    {
        State { score: 0, well: [0; EFF_HEIGHT] }
    }

    /// The well and score of a state that also carries a heuristic.
    pub fn convert(state: StateH) -> (r: State)
        ensures
            r.well == state.well,
            r.score == state.score,
    {
        State { score: state.score, well: state.well }
    }
}

/// A state with an integer heuristic. Two of them are equal when their wells
/// and scores are; the heuristic takes no part in equality.
#[derive(Clone, Copy, Debug, Hash)]
pub struct StateH {
    pub well: WellT,
    pub score: ScoreT,
    pub heuristic: i64,
}

impl PartialEq for StateH {
    fn eq(&self, other: &StateH) -> (r: bool)
        ensures
            r == (self.score == other.score && self.well@ == other.well@),
    {
        if self.score != other.score {
            return false;
        }
        let mut i: usize = 0;
        while i < EFF_HEIGHT
            invariant
                0 <= i <= EFF_HEIGHT,
                forall|j: int| 0 <= j < i ==> self.well@[j] == other.well@[j],
            decreases EFF_HEIGHT - i,
        {
            if self.well[i] != other.well[i] {
                return false;
            }
            i += 1;
        }
        assert(self.well@ =~= other.well@);
        true
    }
}

impl vstd::std_specs::cmp::PartialEqSpecImpl for StateH {
    open spec fn obeys_eq_spec() -> bool {
        true
    }

    open spec fn eq_spec(&self, other: &StateH) -> bool {
        self.score == other.score && self.well@ == other.well@
    }
}

impl Eq for StateH {
}

impl StateH {
    /// An empty well, score zero, and the lowest heuristic.
    pub fn new() -> (r: StateH)
        ensures
            r.score == 0,
            r.heuristic == i64::MIN,
            forall|i: int| 0 <= i < EFF_HEIGHT ==> r.well@[i] == 0,
    {
        StateH { well: [0; EFF_HEIGHT], score: 0, heuristic: i64::MIN }
    }
}

/// A state as a database record: with the depth and the run it was reached in.
#[derive(Clone, Copy, Debug, PartialEq, Eq)]
pub struct StateD {
    pub well: WellT,
    pub score: ScoreT,
    pub depth: i32,
    pub run_id: i32,
}

impl StateD {
    pub fn convert(state: &State, depth: i32, run_id: i32) -> (r: StateD)
        ensures
            r.well == state.well,
            r.score == state.score,
            r.depth == depth,
            r.run_id == run_id,
    {
        StateD { well: state.well, score: state.score, depth, run_id }
    }

    pub fn convert_tuple(state: &StateD) -> (r: (State, (i32, i32)))
        ensures
            r.0.well == state.well,
            r.0.score == state.score,
            r.1 == (state.depth, state.run_id),
    {
        (State { score: state.score, well: state.well }, (state.depth, state.run_id))
    }
}

/// `n` in decimal, with a leading `-` when negative.
pub open spec fn signed_decimal(n: int) -> Seq<char> {
    if n < 0 {
        "-"@ + decimal((-n) as nat)
    } else {
        decimal(n as nat)
    }
}

/// The first `n` rows in decimal, separated by `", "`.
pub open spec fn rows_text(rows: Seq<u16>, n: nat) -> Seq<char>
    decreases n,
{
    if n == 0 {
        seq![]
    } else if n == 1 {
        decimal(rows[0] as nat)
    } else {
        rows_text(rows, (n - 1) as nat) + ", "@ + decimal(rows[n - 1] as nat)
    }
}

/// The record as a statement that inserts it into the `WELLS` table.
pub open spec fn insert_query_text(s: StateD) -> Seq<char> {
    "INSERT INTO WELLS (well_state, run_id, depth, score) VALUES ("@ + "'["@ + rows_text(
        s.well@,
        EFF_HEIGHT as nat,
    ) + "]'"@ + ", "@ + signed_decimal(s.run_id as int) + ", "@ + signed_decimal(s.depth as int)
        + ", "@ + decimal(s.score as nat) + ");"@
}

fn push_signed(s: &mut String, n: i32)
    ensures
        final(s)@ == old(s)@ + signed_decimal(n as int),
{
    if n < 0 {
        s.append("-");
        let magnitude = (0 - (n as i64)) as usize;
        push_decimal(s, magnitude);
        assert(final(s)@ =~= old(s)@ + signed_decimal(n as int));
    } else {
        push_decimal(s, n as usize);
    }
}

/// Something that can be written into the database.
pub trait GetInsertQuery {
    fn get_insert_query(&self) -> String;
}

impl StateD {
    /// The statement that inserts this record.
    pub fn insert_query(&self) -> (r: String)
        ensures
            r@ == insert_query_text(*self),
    {
        let mut s = String::from_str("INSERT INTO WELLS (well_state, run_id, depth, score) VALUES (");
        s.append("'[");
        let ghost head = s@;
        let mut i: usize = 0;
        while i < EFF_HEIGHT
            invariant
                0 <= i <= EFF_HEIGHT,
                s@ == head + rows_text(self.well@, i as nat),
            decreases EFF_HEIGHT - i,
        {
            if i > 0 {
                s.append(", ");
            }
            push_decimal(&mut s, self.well[i] as usize);
            assert(s@ =~= head + rows_text(self.well@, (i + 1) as nat));
            i += 1;
        }
        s.append("]'");
        s.append(", ");
        push_signed(&mut s, self.run_id);
        s.append(", ");
        push_signed(&mut s, self.depth);
        s.append(", ");
        push_decimal(&mut s, self.score as usize);
        s.append(");");
        assert(s@ =~= insert_query_text(*self));
        s
    }
}

impl GetInsertQuery for StateD {
    fn get_insert_query(&self) -> String {
        self.insert_query()
    }
}

/// The per-piece lookup tables that the move generator reads. Pose `i` of a
/// piece stands at bit `WAVE_SIZE - 1 - i` of a wave; a 4-row window is
/// indexed from its top row (offset 0) to its bottom row (offset 3).
pub struct PieceTables {
    /// `piece_slice[p][i]`: the rows that pose `i` of piece `p` occupies in the window.
    pub piece_slice: Vec<Vec<[RowT; 4]>>,
    /// `empty_mask[p]`: the poses of piece `p` that fit in an empty window.
    pub empty_mask: Vec<WaveT>,
    /// `row_mask[p][v][r]`: the poses that leave room for row value `v` at offset `r`.
    pub row_mask: Vec<Vec<[WaveT; 4]>>,
    /// `height_mask[p][r]`: the poses whose lowest cell lies at offset `r`.
    pub height_mask: Vec<[WaveT; 4]>,
    /// `score_mask[p][v][r]`: the poses that fill row value `v` at offset `r` completely.
    pub score_mask: Vec<Vec<[WaveT; 4]>>,
}

/// Whether every row of `well` lies inside the playfield.
pub fn well_is_wf(well: &WellT) -> (r: bool)
    ensures
        r == well_wf(well@),
{
    let mut i: usize = 0;
    while i < EFF_HEIGHT
        invariant
            0 <= i <= EFF_HEIGHT,
            forall|j: int| 0 <= j < i ==> #[trigger] well@[j] <= FULL_ROW,
        decreases EFF_HEIGHT - i,
    {
        if well[i] > FULL_ROW {
            return false;
        }
        i += 1;
    }
    true
}

impl PieceTables {
    /// Whether the tables are complete and consistent, as `wf` states.
    pub fn is_wf(&self) -> (r: bool)
        ensures
            r == self.wf(),
    {
        let n = self.empty_mask.len();
        if n == 0 || self.piece_slice.len() != n || self.row_mask.len() != n || self.height_mask.len() != n
            || self.score_mask.len() != n {
            return false;
        }
        let mut p: usize = 0;
        while p < n
            invariant
                n == self.pieces(),
                n >= 1,
                self.piece_slice@.len() == n,
                self.row_mask@.len() == n,
                self.height_mask@.len() == n,
                self.score_mask@.len() == n,
                0 <= p <= n,
                forall|q: int| 0 <= q < p ==> (#[trigger] self.piece_slice@[q])@.len() == WAVE_SIZE,
                forall|q: int| 0 <= q < p ==> (#[trigger] self.row_mask@[q])@.len() == ROW_VALUES,
                forall|q: int| 0 <= q < p ==> (#[trigger] self.score_mask@[q])@.len() == ROW_VALUES,
                forall|q: int, i: int, j: int|
                    0 <= q < p && 0 <= i < WAVE_SIZE && 0 <= j < 4 ==> #[trigger] self.piece_slice@[q]@[i]@[j] <= FULL_ROW,
                forall|q: int, r1: int, r2: int|
                    0 <= q < p && 0 <= r1 < 4 && 0 <= r2 < 4 && r1 != r2
                        ==> #[trigger] self.height_mask@[q]@[r1] & #[trigger] self.height_mask@[q]@[r2] == 0,
            decreases n - p,
        {
            if self.piece_slice[p].len() != WAVE_SIZE || self.row_mask[p].len() != ROW_VALUES
                || self.score_mask[p].len() != ROW_VALUES {
                return false;
            }
            let mut i: usize = 0;
            while i < WAVE_SIZE
                invariant
                    p < n,
                    self.piece_slice@.len() == n,
                    self.piece_slice@[p as int]@.len() == WAVE_SIZE,
                    0 <= i <= WAVE_SIZE,
                    forall|k: int, j: int| 0 <= k < i && 0 <= j < 4 ==> #[trigger] self.piece_slice@[p as int]@[k]@[j] <= FULL_ROW,
                decreases WAVE_SIZE - i,
            {
                let rows = self.piece_slice[p][i];
                if rows[0] > FULL_ROW || rows[1] > FULL_ROW || rows[2] > FULL_ROW || rows[3] > FULL_ROW {
                    return false;
                }
                proof {
                    assert forall|j: int| 0 <= j < 4 implies #[trigger] self.piece_slice@[p as int]@[i as int]@[j] <= FULL_ROW by {
                        assert(rows@[j] == self.piece_slice@[p as int]@[i as int]@[j]);
                    }
                }
                i += 1;
            }
            let h = self.height_mask[p];
            if h[0] & h[1] != 0 || h[0] & h[2] != 0 || h[0] & h[3] != 0 || h[1] & h[2] != 0 || h[1] & h[3] != 0
                || h[2] & h[3] != 0 {
                return false;
            }
            proof {
                let (a, b, c, d) = (h@[0], h@[1], h@[2], h@[3]);
                assert(b & a == 0 && c & a == 0 && d & a == 0 && c & b == 0 && d & b == 0 && d & c == 0) by (bit_vector)
                    requires
                        a & b == 0,
                        a & c == 0,
                        a & d == 0,
                        b & c == 0,
                        b & d == 0,
                        c & d == 0,
                ;
            }
            p += 1;
        }
        true
    }

    pub open spec fn pieces(&self) -> int {
        self.empty_mask@.len() as int
    }

    /// Every table has an entry for each piece, pose and row value; no pose
    /// occupies a cell outside the playfield; each pose has one lowest offset.
    pub open spec fn wf(&self) -> bool {
        &&& self.pieces() >= 1
        &&& self.piece_slice@.len() == self.pieces()
        &&& self.row_mask@.len() == self.pieces()
        &&& self.height_mask@.len() == self.pieces()
        &&& self.score_mask@.len() == self.pieces()
        &&& forall|p: int|
            0 <= p < self.pieces() ==> (#[trigger] self.piece_slice@[p])@.len() == WAVE_SIZE
        &&& forall|p: int|
            0 <= p < self.pieces() ==> (#[trigger] self.row_mask@[p])@.len() == ROW_VALUES
        &&& forall|p: int|
            0 <= p < self.pieces() ==> (#[trigger] self.score_mask@[p])@.len() == ROW_VALUES
        &&& forall|p: int, i: int, j: int|
            0 <= p < self.pieces() && 0 <= i < WAVE_SIZE && 0 <= j < 4
                ==> #[trigger] self.piece_slice@[p]@[i]@[j] <= FULL_ROW
        &&& forall|p: int, r1: int, r2: int|
            0 <= p < self.pieces() && 0 <= r1 < 4 && 0 <= r2 < 4 && r1 != r2
                ==> #[trigger] self.height_mask@[p]@[r1] & #[trigger] self.height_mask@[p]@[r2]
                == 0
    }
}

/// Integer weights of the heuristic network.
pub struct WeightDiscreteT {
    pub conv: Vec<[i16; HIDDEN]>,
    pub hidden: [i16; HIDDEN],
}

impl WeightDiscreteT {
    /// All weights zero.
    pub fn zero() -> (r: WeightDiscreteT)
        ensures
            r.conv@.len() == ALL_CONV,
            forall|c: int, h: int| 0 <= c < ALL_CONV && 0 <= h < HIDDEN ==> #[trigger] r.conv@[c]@[h] == 0,
            forall|h: int| 0 <= h < HIDDEN ==> #[trigger] r.hidden@[h] == 0,
    {
        let mut conv: Vec<[i16; HIDDEN]> = Vec::new();
        let mut c: usize = 0;
        while c < ALL_CONV
            invariant
                0 <= c <= ALL_CONV,
                conv@.len() == c,
                forall|k: int, h: int| 0 <= k < c && 0 <= h < HIDDEN ==> #[trigger] conv@[k]@[h] == 0,
            decreases ALL_CONV - c,
        {
            conv.push([0; HIDDEN]);
            c += 1;
        }
        WeightDiscreteT { conv, hidden: [0; HIDDEN] }
    }
}

/// Settings of a search.
#[derive(Clone, Copy, Debug, PartialEq, Eq)]
pub struct SearchConf {
    pub beam_width: usize,
    pub beam_depth: usize,
    pub generation: usize,
    /// Rounds of quiescence; 0 turns quiescence off.
    pub max_play: usize,
    pub quiescent: bool,
    pub parent: bool,
    pub save: bool,
    pub print: bool,
}

/// The decimal digit `d` as a character.
pub open spec fn digit_char(d: nat) -> char {
    if d == 0 { '0' } else if d == 1 { '1' } else if d == 2 { '2' } else if d == 3 { '3' } else if d
        == 4 { '4' } else if d == 5 { '5' } else if d == 6 { '6' } else if d == 7 { '7' } else if d == 8 {
        '8'
    } else {
        '9'
    }
}

/// `n` written in decimal, without leading zeros.
pub open spec fn decimal(n: nat) -> Seq<char>
    decreases n,
{
    if n < 10 {
        seq![digit_char(n)]
    } else {
        decimal(n / 10).push(digit_char(n % 10))
    }
}

fn digit_str(d: usize) -> (r: &'static str)
    requires
        d < 10,
    ensures
        r@ == seq![digit_char(d as nat)],
{
    proof {
        reveal_strlit("0");
        reveal_strlit("1");
        reveal_strlit("2");
        reveal_strlit("3");
        reveal_strlit("4");
        reveal_strlit("5");
        reveal_strlit("6");
        reveal_strlit("7");
        reveal_strlit("8");
        reveal_strlit("9");
    }
    let r = if d == 0 { "0" } else if d == 1 { "1" } else if d == 2 { "2" } else if d == 3 { "3" } else if d == 4 {
        "4"
    } else if d == 5 { "5" } else if d == 6 { "6" } else if d == 7 { "7" } else if d == 8 { "8" } else {
        "9"
    };
    assert(r@ =~= seq![digit_char(d as nat)]);
    r
}

/// Appends `n` in decimal.
fn push_decimal(s: &mut String, n: usize)
    ensures
        final(s)@ == old(s)@ + decimal(n as nat),
    decreases n,
{
    if n >= 10 {
        push_decimal(s, n / 10);
    }
    s.append(digit_str(n % 10));
    assert(s@ =~= old(s)@ + decimal(n as nat));
}

/// `a` followed by `n` in decimal.
fn with_number(a: &str, n: usize) -> (r: String)
    ensures
        r@ == a@ + decimal(n as nat),
{
    let mut s = String::from_str(a);
    push_decimal(&mut s, n);
    s
}

impl SearchConf {
    pub fn master(generation: usize) -> (r: SearchConf)
        ensures
            r == (SearchConf {
                beam_width: MASTER_BEAM_WIDTH,
                beam_depth: MASTER_BEAM_DEPTH,
                generation,
                max_play: MASTER_MAX_PLAY,
                quiescent: true,
                parent: true,
                save: true,
                print: true,
            }),
    {
        SearchConf {
            beam_width: MASTER_BEAM_WIDTH,
            beam_depth: MASTER_BEAM_DEPTH,
            generation,
            max_play: MASTER_MAX_PLAY,
            quiescent: true,
            parent: true,
            save: true,
            print: true,
        }
    }

    pub fn training(generation: usize) -> (r: SearchConf)
        ensures
            r == (SearchConf {
                beam_width: TRAINING_BEAM_WIDTH,
                beam_depth: TRAINING_BEAM_DEPTH,
                generation,
                max_play: TRAINING_MAX_PLAY,
                quiescent: false,
                parent: false,
                save: false,
                print: false,
            }),
    {
        SearchConf {
            beam_width: TRAINING_BEAM_WIDTH,
            beam_depth: TRAINING_BEAM_DEPTH,
            generation,
            max_play: TRAINING_MAX_PLAY,
            quiescent: false,
            parent: false,
            save: false,
            print: false,
        }
    }

    pub fn testing() -> (r: SearchConf)
        ensures
            r == (SearchConf {
                beam_width: MASTER_BEAM_WIDTH,
                beam_depth: usize::MAX,
                generation: 0,
                max_play: MASTER_MAX_PLAY,
                quiescent: true,
                parent: true,
                save: false,
                print: true,
            }),
    {
        SearchConf {
            beam_width: MASTER_BEAM_WIDTH,
            beam_depth: usize::MAX,
            generation: 0,
            max_play: MASTER_MAX_PLAY,
            quiescent: true,
            parent: true,
            save: false,
            print: true,
        }
    }

    /// `aeon-<AEON>-gen-<generation>`.
    pub fn run_name(&self) -> (r: String)
        ensures
            r@ == "aeon-"@ + decimal(AEON as nat) + "-gen-"@ + decimal(self.generation as nat),
    {
        let mut s = with_number("aeon-", AEON);
        s.append("-gen-");
        push_decimal(&mut s, self.generation);
        s
    }

    /// `<CHECKPOINTS>/Aeon <AEON>`.
    pub fn aeon_path(&self) -> (r: String)
        ensures
            r@ == CHECKPOINTS@ + "/Aeon "@ + decimal(AEON as nat),
    {
        let mut s = String::from_str(CHECKPOINTS);
        s.append("/Aeon ");
        push_decimal(&mut s, AEON);
        s
    }

    /// `<aeon path>/Generation <generation>`.
    pub fn generation_path(&self) -> (r: String)
        ensures
            r@ == CHECKPOINTS@ + "/Aeon "@ + decimal(AEON as nat) + "/Generation "@ + decimal(self.generation as nat),
    {
        let mut s = self.aeon_path();
        s.append("/Generation ");
        push_decimal(&mut s, self.generation);
        s
    }

    /// `<generation path>/Network <generation>.bin`.
    pub fn neural_network_path(&self) -> (r: String)
        ensures
            r@ == CHECKPOINTS@ + "/Aeon "@ + decimal(AEON as nat) + "/Generation "@ + decimal(self.generation as nat)
                + "/Network "@ + decimal(self.generation as nat) + ".bin"@,
    {
        let mut s = self.generation_path();
        s.append("/Network ");
        push_decimal(&mut s, self.generation);
        s.append(".bin");
        s
    }

    /// `<generation path>/Replay`.
    pub fn replay_path(&self) -> (r: String)
        ensures
            r@ == CHECKPOINTS@ + "/Aeon "@ + decimal(AEON as nat) + "/Generation "@ + decimal(self.generation as nat)
                + "/Replay"@,
    {
        let mut s = self.generation_path();
        s.append("/Replay");
        s
    }

    /// `<generation path>/Training`.
    pub fn training_path(&self) -> (r: String)
        ensures
            r@ == CHECKPOINTS@ + "/Aeon "@ + decimal(AEON as nat) + "/Generation "@ + decimal(self.generation as nat)
                + "/Training"@,
    {
        let mut s = self.generation_path();
        s.append("/Training");
        s
    }

    /// `<replay path>/move_<depth>.bin`.
    pub fn move_path(&self, depth: usize) -> (r: String)
        ensures
            r@ == CHECKPOINTS@ + "/Aeon "@ + decimal(AEON as nat) + "/Generation "@ + decimal(self.generation as nat)
                + "/Replay"@ + "/move_"@ + decimal(depth as nat) + ".bin"@,
    {
        let mut s = self.replay_path();
        s.append("/move_");
        push_decimal(&mut s, depth);
        s.append(".bin");
        s
    }

    /// `<replay path>/parent_<depth>.bin`.
    pub fn parent_path(&self, depth: usize) -> (r: String)
        ensures
            r@ == CHECKPOINTS@ + "/Aeon "@ + decimal(AEON as nat) + "/Generation "@ + decimal(self.generation as nat)
                + "/Replay"@ + "/parent_"@ + decimal(depth as nat) + ".bin"@,
    {
        let mut s = self.replay_path();
        s.append("/parent_");
        push_decimal(&mut s, depth);
        s.append(".bin");
        s
    }

    /// `<training path>/epoch_<epoch>.bin`; a negative epoch is written with a `-`.
    pub fn epoch_path(&self, epoch: isize) -> (r: String)
        ensures
            r@ == CHECKPOINTS@ + "/Aeon "@ + decimal(AEON as nat) + "/Generation "@ + decimal(self.generation as nat)
                + "/Training"@ + "/epoch_"@ + (if epoch < 0 { "-"@ } else { ""@ }) + decimal(
                (if epoch < 0 { -(epoch as int) } else { epoch as int }) as nat,
            ) + ".bin"@,
    {
        let mut s = self.training_path();
        s.append("/epoch_");
        if epoch < 0 {
            s.append("-");
        }
        proof {
            reveal_strlit("");
            assert(s@ =~= CHECKPOINTS@ + "/Aeon "@ + decimal(AEON as nat) + "/Generation "@ + decimal(self.generation as nat)
                + "/Training"@ + "/epoch_"@ + (if epoch < 0 { "-"@ } else { ""@ }));
        }
        let magnitude: usize = if epoch < 0 {
            (0 - (epoch as i128)) as usize
        } else {
            epoch as usize
        };
        push_decimal(&mut s, magnitude);
        s.append(".bin");
        s
    }

    /// `<training path>/all_epochs.bin`.
    pub fn data_path(&self) -> (r: String)
        ensures
            r@ == CHECKPOINTS@ + "/Aeon "@ + decimal(AEON as nat) + "/Generation "@ + decimal(self.generation as nat)
                + "/Training"@ + "/all_epochs.bin"@,
    {
        let mut s = self.training_path();
        s.append("/all_epochs.bin");
        s
    }
}

} // verus!
