use vstd::prelude::*;
use crate::constants::{MAX_SCORE, WAVE_SIZE};
use crate::emulator::{
    fill_slice, lemma_placements_empty, lemma_placements_score, resting_spec, resting_waveforms,
    score_slice, views, waveform_to_wells, wells_of,
};
use crate::types::{well_wf, PieceTables, State, WaveT};

verus! {

/// The poses of `wave` that fill at least one window row.
pub open spec fn clearing_wave(t: &PieceTables, wave: u64, height: int, p: int, well: Seq<u16>) -> u64 {
    wave & (fill_slice(t, wave, height, p, well, 0) | fill_slice(t, wave, height, p, well, 1)
        | fill_slice(t, wave, height, p, well, 2) | fill_slice(t, wave, height, p, well, 3))
}

/// The states that the line-clearing poses of each wave leave, wave after wave.
pub open spec fn clears_of(t: &PieceTables, p: int, s: (Seq<u16>, int), waves: Seq<(u64, usize)>) -> Seq<
    (Seq<u16>, int),
>
    decreases waves.len(),
{
    if waves.len() == 0 {
        seq![]
    } else {
        let last = waves.last();
        clears_of(t, p, s, waves.drop_last()) + wells_of(
            t,
            clearing_wave(t, last.0, last.1 as int, p, s.0),
            last.1 as int,
            p,
            s,
        )
    }
}

/// The line-clearing placements of piece `p` in the state `s`.
pub open spec fn piece_clears(t: &PieceTables, p: int, s: (Seq<u16>, int)) -> Seq<(Seq<u16>, int)> {
    clears_of(t, p, s, resting_spec(t, p, s.0))
}

/// Every line-clearing placement of piece `p` brings the score to exactly
/// `prev + depth + 1`: each clears a single line.
pub open spec fn single_clears_only(t: &PieceTables, p: int, s: (Seq<u16>, int), prev: int, depth: int) -> bool {
    forall|j: int| 0 <= j < piece_clears(t, p, s).len() ==> (#[trigger] piece_clears(t, p, s)[j]).1 - prev
        == depth + 1
}

/// The line-clearing placements of the first piece from `from` on whose
/// placements all clear a single line; none where no piece qualifies.
pub open spec fn quiet_children_from(t: &PieceTables, s: (Seq<u16>, int), prev: int, depth: int, from: int) -> Seq<
    (Seq<u16>, int),
>
    decreases t.pieces() - from,
{
    if from < 0 || from >= t.pieces() {
        seq![]
    } else if single_clears_only(t, from, s, prev, depth) {
        piece_clears(t, from, s)
    } else {
        quiet_children_from(t, s, prev, depth, from + 1)
    }
}

pub open spec fn quiet_children(t: &PieceTables, s: (Seq<u16>, int), prev: int, depth: int) -> Seq<(Seq<u16>, int)> {
    quiet_children_from(t, s, prev, depth, 0)
}

proof fn lemma_clears_prefix(t: &PieceTables, p: int, s: (Seq<u16>, int), waves: Seq<(u64, usize)>, m: int, n: int)
    requires
        0 <= m <= n <= waves.len(),
    ensures
        clears_of(t, p, s, waves.subrange(0, m)).len() <= clears_of(t, p, s, waves.subrange(0, n)).len(),
        forall|k: int| 0 <= k < clears_of(t, p, s, waves.subrange(0, m)).len() ==> #[trigger] clears_of(t, p, s, waves.subrange(0, m))[k]
            == clears_of(t, p, s, waves.subrange(0, n))[k],
    decreases n - m,
{
    if m < n {
        lemma_clears_prefix(t, p, s, waves, m, n - 1);
        assert(waves.subrange(0, n).drop_last() =~= waves.subrange(0, n - 1));
    }
}

/// The line-clearing placements of piece `p`, or `None` as soon as one of
/// them clears more than a single line.
fn single_clears_of_piece(state: &State, p: usize, prev_score: u16, depth: usize, t: &PieceTables) -> (r: Option<Vec<State>>)
    requires
        t.wf(),
        p < t.pieces(),
        well_wf(state.well@),
        state.score <= MAX_SCORE,
        prev_score <= state.score,
    ensures
        match r {
            Some(v) => single_clears_only(t, p as int, state@, prev_score as int, depth as int)
                && views(v@) == piece_clears(t, p as int, state@),
            None => !single_clears_only(t, p as int, state@, prev_score as int, depth as int),
        },
        r matches Some(v) ==> forall|i: int| 0 <= i < v@.len() ==> well_wf(#[trigger] v@[i].well@),
{
    let waves = resting_waveforms(p, &state.well, t);
    let ghost all = piece_clears(t, p as int, state@);
    let mut queue: Vec<State> = Vec::new();
    let mut i: usize = 0;
    while i < waves.len()
        invariant
            t.wf(),
            p < t.pieces(),
            well_wf(state.well@),
            state.score <= MAX_SCORE,
            prev_score <= state.score,
            waves@ == resting_spec(t, p as int, state.well@),
            all == clears_of(t, p as int, state@, waves@),
            0 <= i <= waves@.len(),
            views(queue@) == clears_of(t, p as int, state@, waves@.subrange(0, i as int)),
            forall|j: int| 0 <= j < queue@.len() ==> well_wf(#[trigger] queue@[j].well@),
            forall|j: int| 0 <= j < queue@.len() ==> (#[trigger] queue@[j]).score - prev_score == depth + 1,
        decreases waves@.len() - i,
    {
        let (wave, height) = waves[i];
        let sl = score_slice(wave, height, p, &state.well, t);
        let clearing = wave & (sl[0] | sl[1] | sl[2] | sl[3]);
        let ghost sub = waves@.subrange(0, i + 1);
        proof {
            assert(sub.drop_last() =~= waves@.subrange(0, i as int));
            assert(clearing == clearing_wave(t, wave, height as int, p as int, state.well@));
        }
        if clearing > 0 {
            let new_wells = waveform_to_wells(clearing, height, p, state, t);
            assert(clears_of(t, p as int, state@, sub) == clears_of(t, p as int, state@, waves@.subrange(0, i as int)) + views(new_wells@));
            let mut j: usize = 0;
            while j < new_wells.len()
                invariant
                    t.wf(),
                    p < t.pieces(),
                    well_wf(state.well@),
                    state.score <= MAX_SCORE,
                    prev_score <= state.score,
                    i < waves@.len(),
                    waves@ == resting_spec(t, p as int, state.well@),
                    all == clears_of(t, p as int, state@, waves@),
                    sub == waves@.subrange(0, i + 1),
                    clears_of(t, p as int, state@, sub) == clears_of(t, p as int, state@, waves@.subrange(0, i as int)) + views(new_wells@),
                    0 <= j <= new_wells@.len(),
                    forall|k: int| 0 <= k < new_wells@.len() ==> well_wf(#[trigger] new_wells@[k].well@),
                    views(new_wells@) == wells_of(t, clearing, height as int, p as int, state@),
                    views(queue@) == clears_of(t, p as int, state@, waves@.subrange(0, i as int)) + views(new_wells@.subrange(0, j as int)),
                    forall|k: int| 0 <= k < queue@.len() ==> well_wf(#[trigger] queue@[k].well@),
                    forall|k: int| 0 <= k < queue@.len() ==> (#[trigger] queue@[k]).score - prev_score == depth + 1,
                decreases new_wells@.len() - j,
            {
                let w = new_wells[j];
                assert(views(new_wells@)[j as int] == w@);
                proof {
                    lemma_placements_score(t, clearing, height as int, p as int, state@, WAVE_SIZE as nat);
                    assert(wells_of(t, clearing, height as int, p as int, state@)[j as int].1 >= state.score);
                }
                let delta = (w.score - prev_score) as usize;
                if delta == 0 || delta - 1 != depth {
                    proof {
                        let pre = clears_of(t, p as int, state@, waves@.subrange(0, i as int));
                        let pos = pre.len() + j;
                        assert(waves@.subrange(0, waves@.len() as int) =~= waves@);
                        lemma_clears_prefix(t, p as int, state@, waves@, i + 1, waves@.len() as int);
                        assert(clears_of(t, p as int, state@, sub)[pos] == views(new_wells@)[j as int]);
                        assert(clears_of(t, p as int, state@, sub)[pos] == all[pos]);
                        assert(all[pos] == w@);
                        assert(piece_clears(t, p as int, state@) == all);
                        assert(piece_clears(t, p as int, state@)[pos].1 - prev_score != depth + 1);
                        assert(!single_clears_only(t, p as int, state@, prev_score as int, depth as int));
                    }
                    return None;
                }
                let ghost before = queue@;
                queue.push(w);
                proof {
                    assert(new_wells@.subrange(0, j + 1) =~= new_wells@.subrange(0, j as int).push(w));
                    assert(views(queue@) =~= views(before).push(w@));
                }
                j += 1;
            }
            assert(new_wells@.subrange(0, new_wells@.len() as int) =~= new_wells@);
        } else {
            proof {
                lemma_placements_empty(t, height as int, p as int, state@, WAVE_SIZE as nat);
                assert(clearing == 0);
                assert(views(queue@) =~= clears_of(t, p as int, state@, sub));
            }
        }
        i += 1;
    }
    assert(waves@.subrange(0, waves@.len() as int) =~= waves@);
    proof {
        assert(single_clears_only(t, p as int, state@, prev_score as int, depth as int)) by {
            assert forall|j: int| 0 <= j < all.len() implies (#[trigger] all[j]).1 - prev_score == depth + 1 by {
                assert(all[j] == views(queue@)[j]);
            }
        }
    }
    Some(queue)
}

/// The single-line-clearing successors of a frontier state: the line-clearing
/// placements of the first piece, in piece order, none of whose
/// line-clearing placements brings the score to anything but
/// `prev_score + depth + 1`. Empty where no piece qualifies.
pub fn single_clear_children(state: &State, prev_score: u16, depth: usize, t: &PieceTables) -> (r: Vec<State>)
    requires
        t.wf(),
        well_wf(state.well@),
        state.score <= MAX_SCORE,
        prev_score <= state.score,
    ensures
        views(r@) == quiet_children(t, state@, prev_score as int, depth as int),
        forall|i: int| 0 <= i < r@.len() ==> well_wf(#[trigger] r@[i].well@),
        forall|i: int| 0 <= i < r@.len() ==> (#[trigger] r@[i]).score == prev_score + depth + 1,
{
    let n = t.empty_mask.len();
    let mut p: usize = 0;
    while p < n
        invariant
            t.wf(),
            well_wf(state.well@),
            state.score <= MAX_SCORE,
            prev_score <= state.score,
            n == t.pieces(),
            0 <= p <= n,
            quiet_children(t, state@, prev_score as int, depth as int) == quiet_children_from(
                t,
                state@,
                prev_score as int,
                depth as int,
                p as int,
            ),
        decreases n - p,
    {
        match single_clears_of_piece(state, p, prev_score, depth, t) {
            Some(v) => {
                proof {
                    assert forall|i: int| 0 <= i < v@.len() implies (#[trigger] v@[i]).score == prev_score + depth + 1 by {
                        assert(views(v@)[i] == v@[i]@);
                        assert(piece_clears(t, p as int, state@)[i].1 - prev_score == depth + 1);
                    }
                }
                return v;
            },
            None => {},
        }
        p += 1;
    }
    Vec::new()
}

/// A frontier entry as values: a state and the indices it stands for.
pub open spec fn entry_views(acc: Seq<(State, Vec<usize>)>) -> Seq<((Seq<u16>, int), Seq<usize>)> {
    acc.map_values(|e: (State, Vec<usize>)| (e.0@, e.1@))
}

/// The first entry that holds state `x`, or -1.
pub open spec fn find_entry(acc: Seq<((Seq<u16>, int), Seq<usize>)>, x: (Seq<u16>, int)) -> int {
    if exists|k: int| 0 <= k < acc.len() && (#[trigger] acc[k]).0 == x {
        choose|k: int|
            0 <= k < acc.len() && (#[trigger] acc[k]).0 == x && forall|m: int| 0 <= m < k ==> (#[trigger] acc[m]).0 != x
    } else {
        -1
    }
}

/// Adds `ids` to the entry of `x`, or appends a new entry for `x`.
pub open spec fn insert_entry(acc: Seq<((Seq<u16>, int), Seq<usize>)>, x: (Seq<u16>, int), ids: Seq<usize>) -> Seq<
    ((Seq<u16>, int), Seq<usize>),
> {
    let k = find_entry(acc, x);
    if k >= 0 {
        acc.update(k, (x, acc[k].1 + ids))
    } else {
        acc.push((x, ids))
    }
}

/// Inserts each of `xs`, in order, with the same `ids`.
pub open spec fn insert_all(acc: Seq<((Seq<u16>, int), Seq<usize>)>, xs: Seq<(Seq<u16>, int)>, ids: Seq<usize>) -> Seq<
    ((Seq<u16>, int), Seq<usize>),
>
    decreases xs.len(),
{
    if xs.len() == 0 {
        acc
    } else {
        insert_entry(insert_all(acc, xs.drop_last(), ids), xs.last(), ids)
    }
}

/// The next frontier built from the first `n` entries of `f`: the children
/// of each entry, merged by state, each carrying the indices of the entries
/// it came from.
pub open spec fn next_frontier(
    t: &PieceTables,
    f: Seq<((Seq<u16>, int), Seq<usize>)>,
    base: Seq<int>,
    depth: int,
    n: nat,
) -> Seq<((Seq<u16>, int), Seq<usize>)>
    decreases n,
{
    if n == 0 {
        seq![]
    } else {
        let e = f[n - 1];
        insert_all(
            next_frontier(t, f, base, depth, (n - 1) as nat),
            quiet_children(t, e.0, base[e.1[0] as int], depth),
            e.1,
        )
    }
}

/// No state stands in two entries.
pub open spec fn distinct_states(acc: Seq<((Seq<u16>, int), Seq<usize>)>) -> bool {
    forall|a: int, b: int| 0 <= a < b < acc.len() ==> (#[trigger] acc[a]).0 != (#[trigger] acc[b]).0
}

fn find_state(acc: &Vec<(State, Vec<usize>)>, x: &State) -> (r: Option<usize>)
    ensures
        match r {
            Some(k) => k == find_entry(entry_views(acc@), x@),
            None => find_entry(entry_views(acc@), x@) == -1,
        },
{
    let ghost ev = entry_views(acc@);
    let mut k: usize = 0;
    while k < acc.len()
        invariant
            ev == entry_views(acc@),
            0 <= k <= acc@.len(),
            forall|m: int| 0 <= m < k ==> (#[trigger] ev[m]).0 != x@,
        decreases acc@.len() - k,
    {
        if acc[k].0 == *x {
            assert(ev[k as int].0 == x@);
            return Some(k);
        }
        k += 1;
    }
    None
}

fn copy_ids(v: &Vec<usize>) -> (r: Vec<usize>)
    ensures
        r@ == v@,
{
    let mut r: Vec<usize> = Vec::new();
    let mut i: usize = 0;
    while i < v.len()
        invariant
            0 <= i <= v@.len(),
            r@ == v@.subrange(0, i as int),
        decreases v@.len() - i,
    {
        r.push(v[i]);
        i += 1;
    }
    r
}

proof fn lemma_insert_distinct(acc: Seq<((Seq<u16>, int), Seq<usize>)>, x: (Seq<u16>, int), ids: Seq<usize>)
    requires
        distinct_states(acc),
    ensures
        distinct_states(insert_entry(acc, x, ids)),
{
    let k = find_entry(acc, x);
    if k < 0 {
        assert forall|m: int| 0 <= m < acc.len() implies (#[trigger] acc[m]).0 != x by {
            if acc[m].0 == x {
                assert(exists|k: int| 0 <= k < acc.len() && (#[trigger] acc[k]).0 == x);
                let c = choose|k: int|
                    0 <= k < acc.len() && (#[trigger] acc[k]).0 == x && forall|m: int| 0 <= m < k ==> (#[trigger] acc[m]).0 != x;
                lemma_first_exists(acc, x, m);
            }
        }
    }
}

proof fn lemma_first_exists(acc: Seq<((Seq<u16>, int), Seq<usize>)>, x: (Seq<u16>, int), m: int)
    requires
        0 <= m < acc.len(),
        acc[m].0 == x,
    ensures
        find_entry(acc, x) >= 0,
    decreases m,
{
    if exists|j: int| 0 <= j < m && (#[trigger] acc[j]).0 == x {
        let j = choose|j: int| 0 <= j < m && (#[trigger] acc[j]).0 == x;
        lemma_first_exists(acc, x, j);
    } else {
        assert(0 <= m < acc.len() && acc[m].0 == x && forall|j: int| 0 <= j < m ==> (#[trigger] acc[j]).0 != x);
    }
}

/// The first frontier: each successor in `legal`, merged by state, with the
/// indices at which it stands.
pub fn initial_frontier(legal: &Vec<State>) -> (r: Vec<(State, Vec<usize>)>)
    ensures
        entry_views(r@) == initial_entries(views(legal@), legal@.len()),
        distinct_states(entry_views(r@)),
        forall|i: int| 0 <= i < r@.len() ==> #[trigger] r@[i].1@.len() > 0,
        forall|i: int, k: int| 0 <= i < r@.len() && 0 <= k < r@[i].1@.len() ==> #[trigger] r@[i].1@[k] < legal@.len()
            && legal@[r@[i].1@[k] as int] == r@[i].0,
{
    let mut acc: Vec<(State, Vec<usize>)> = Vec::new();
    let mut i: usize = 0;
    while i < legal.len()
        invariant
            0 <= i <= legal@.len(),
            entry_views(acc@) == initial_entries(views(legal@), i as nat),
            distinct_states(entry_views(acc@)),
            forall|e: int| 0 <= e < acc@.len() ==> #[trigger] acc@[e].1@.len() > 0,
            forall|e: int, k: int| 0 <= e < acc@.len() && 0 <= k < acc@[e].1@.len() ==> #[trigger] acc@[e].1@[k] < i
                && legal@[acc@[e].1@[k] as int] == acc@[e].0,
        decreases legal@.len() - i,
    {
        let x = legal[i];
        let ghost before = entry_views(acc@);
        proof {
            lemma_insert_distinct(before, x@, seq![i]);
            assert(views(legal@)[i as int] == x@);
        }
        match find_state(&acc, &x) {
            Some(k) => {
                let mut ids = copy_ids(&acc[k].1);
                ids.push(i);
                let st = acc[k].0;
                let ghost old_acc = acc@;
                proof {
                    assert(before[k as int].0 == x@);
                    assert(st.well@ == x.well@);
                    assert(st.well =~= x.well);
                    assert(ids@ =~= before[k as int].1 + seq![i]);
                }
                acc.set(k, (st, ids));
                proof {
                    assert(st == x);
                    assert(entry_views(acc@) =~= before.update(k as int, (x@, before[k as int].1 + seq![i])));
                    assert forall|e: int, m: int| 0 <= e < acc@.len() && 0 <= m < acc@[e].1@.len() implies #[trigger] acc@[e].1@[m] < i + 1
                        && legal@[acc@[e].1@[m] as int] == acc@[e].0 by {
                        if e != k {
                            assert(acc@[e] == old_acc[e]);
                        } else if m < old_acc[e].1@.len() {
                            assert(acc@[e].1@[m] == old_acc[e].1@[m]);
                        }
                    }
                }
            },
            None => {
                let mut ids: Vec<usize> = Vec::new();
                ids.push(i);
                acc.push((x, ids));
                assert(entry_views(acc@) =~= before.push((x@, seq![i])));
            },
        }
        i += 1;
    }
    acc
}

/// The entries for the first `n` successors, each with its own index.
pub open spec fn initial_entries(legal: Seq<(Seq<u16>, int)>, n: nat) -> Seq<((Seq<u16>, int), Seq<usize>)>
    decreases n,
{
    if n == 0 {
        seq![]
    } else {
        insert_entry(initial_entries(legal, (n - 1) as nat), legal[n - 1], seq![(n - 1) as usize])
    }
}

/// One round of quiescence: the next frontier from `frontier`, whose states
/// lie `depth` single-line clears below the successors in `legal` that they
/// stand for. Each entry lists the indices of `legal` that its state stands
/// for; states are merged and their lists joined.
pub fn advance_frontier(
    frontier: &Vec<(State, Vec<usize>)>,
    legal: &Vec<State>,
    depth: usize,
    t: &PieceTables,
) -> (r: Vec<(State, Vec<usize>)>)
    requires
        t.wf(),
        forall|i: int|
            0 <= i < frontier@.len() ==> {
                let e = #[trigger] frontier@[i];
                &&& well_wf(e.0.well@)
                &&& e.0.score <= MAX_SCORE
                &&& e.1@.len() > 0
                &&& e.1@[0] < legal@.len()
                &&& legal@[e.1@[0] as int].score <= e.0.score
            },
    ensures
        entry_views(r@) == next_frontier(
            t,
            entry_views(frontier@),
            legal@.map_values(|s: State| s.score as int),
            depth as int,
            frontier@.len(),
        ),
        distinct_states(entry_views(r@)),
        forall|i: int| 0 <= i < r@.len() ==> well_wf(#[trigger] r@[i].0.well@),
{
    let ghost f = entry_views(frontier@);
    let ghost base = legal@.map_values(|s: State| s.score as int);
    let mut queued: Vec<(State, Vec<usize>)> = Vec::new();
    let mut i: usize = 0;
    while i < frontier.len()
        invariant
            t.wf(),
            f == entry_views(frontier@),
            base == legal@.map_values(|s: State| s.score as int),
            forall|i: int|
                0 <= i < frontier@.len() ==> {
                    let e = #[trigger] frontier@[i];
                    &&& well_wf(e.0.well@)
                    &&& e.0.score <= MAX_SCORE
                    &&& e.1@.len() > 0
                    &&& e.1@[0] < legal@.len()
                    &&& legal@[e.1@[0] as int].score <= e.0.score
                },
            0 <= i <= frontier@.len(),
            entry_views(queued@) == next_frontier(t, f, base, depth as int, i as nat),
            distinct_states(entry_views(queued@)),
            forall|k: int| 0 <= k < queued@.len() ==> well_wf(#[trigger] queued@[k].0.well@),
        decreases frontier@.len() - i,
    {
        let entry = &frontier[i];
        let prev_score = legal[entry.1[0]].score;
        let children = single_clear_children(&entry.0, prev_score, depth, t);
        let ghost acc0 = entry_views(queued@);
        let ghost ids = entry.1@;
        proof {
            assert(f[i as int] == (entry.0@, entry.1@));
            assert(base[ids[0] as int] == prev_score);
        }
        let mut j: usize = 0;
        while j < children.len()
            invariant
                forall|k: int| 0 <= k < children@.len() ==> well_wf(#[trigger] children@[k].well@),
                ids == entry.1@,
                0 <= j <= children@.len(),
                entry_views(queued@) == insert_all(acc0, views(children@).subrange(0, j as int), ids),
                distinct_states(entry_views(queued@)),
                forall|k: int| 0 <= k < queued@.len() ==> well_wf(#[trigger] queued@[k].0.well@),
            decreases children@.len() - j,
        {
            let x = children[j];
            let ghost before = entry_views(queued@);
            proof {
                let sub = views(children@).subrange(0, j + 1);
                assert(sub.drop_last() =~= views(children@).subrange(0, j as int));
                assert(sub.last() == x@);
                lemma_insert_distinct(before, x@, ids);
            }
            match find_state(&queued, &x) {
                Some(k) => {
                    let mut merged = copy_ids(&queued[k].1);
                    let mut more = copy_ids(&entry.1);
                    merged.append(&mut more);
                    let st = queued[k].0;
                    queued.set(k, (st, merged));
                    proof {
                        assert(before[k as int].0 == x@);
                        assert(entry_views(queued@) =~= before.update(k as int, (x@, before[k as int].1 + ids)));
                    }
                },
                None => {
                    let more = copy_ids(&entry.1);
                    queued.push((x, more));
                    assert(entry_views(queued@) =~= before.push((x@, ids)));
                },
            }
            j += 1;
        }
        assert(views(children@).subrange(0, children@.len() as int) =~= views(children@));
        i += 1;
    }
    queued
}

/// A node of the search path: its depth, and the index of its parent.
#[derive(Clone, Copy, Debug, PartialEq, Eq)]
pub struct PathLink {
    pub depth: usize,
    pub parent_index: usize,
}

/// Every node below the root has a parent in the path, one that lies closer to the root.
pub open spec fn path_wf(links: Seq<PathLink>) -> bool {
    forall|j: int|
        0 <= j < links.len() && (#[trigger] links[j]).depth > 0 ==> links[j].parent_index < links.len()
            && links[links[j].parent_index as int].depth < links[j].depth
}

/// The ancestors of `start`, from `start` itself up to and including the
/// first node of depth 0; empty where `start` is a root.
pub fn ancestor_chain(links: &Vec<PathLink>, start: usize) -> (r: Vec<usize>)
    requires
        path_wf(links@),
        start < links@.len(),
    ensures
        links@[start as int].depth == 0 <==> r@.len() == 0,
        r@.len() > 0 ==> r@[0] == start,
        forall|k: int| 0 <= k < r@.len() ==> #[trigger] r@[k] < links@.len(),
        forall|k: int| 0 <= k && k + 1 < r@.len() ==> links@[#[trigger] r@[k] as int].depth > 0 && r@[k + 1]
            == links@[r@[k] as int].parent_index,
        r@.len() > 0 ==> links@[r@.last() as int].depth == 0,
{
    let mut chain: Vec<usize> = Vec::new();
    let mut j = start;
    let mut done = links[start].depth == 0;
    while !done
        invariant
            path_wf(links@),
            start < links@.len(),
            j < links@.len(),
            chain@.len() == 0 ==> j == start && (done <==> links@[start as int].depth == 0),
            chain@.len() > 0 ==> chain@[0] == start && links@[start as int].depth > 0,
            chain@.len() > 0 && !done ==> links@[chain@.last() as int].depth > 0 && j
                == links@[chain@.last() as int].parent_index,
            chain@.len() > 0 && done ==> links@[chain@.last() as int].depth == 0,
            forall|k: int| 0 <= k < chain@.len() ==> #[trigger] chain@[k] < links@.len(),
            forall|k: int|
                0 <= k && k + 1 < chain@.len() ==> links@[#[trigger] chain@[k] as int].depth > 0 && chain@[k + 1]
                    == links@[chain@[k] as int].parent_index,
        decreases (if done { 0 } else { links@[j as int].depth + 1 }),
    {
        let ghost before = chain@;
        chain.push(j);
        assert(chain@.last() == j);
        assert forall|k: int|
            0 <= k && k + 1 < chain@.len() implies links@[#[trigger] chain@[k] as int].depth > 0 && chain@[k + 1]
                == links@[chain@[k] as int].parent_index by {
            if k + 1 < before.len() {
                assert(chain@[k] == before[k] && chain@[k + 1] == before[k + 1]);
            } else {
                assert(chain@[k] == before.last());
            }
        }
        if links[j].depth == 0 {
            done = true;
        } else {
            j = links[j].parent_index;
        }
    }
    chain
}

} // verus!
