//! Turns Steam's local unlock records into what the profile page draws: a
//! per-day histogram, the unlocks in time order, and the bursts that stand out.
//!
//! A burst is a run of unlocks of one game, each at most a few seconds after the
//! one before it, long enough to be worth showing. Bursts of different games
//! that start close together form one sitting (a cluster).
use vstd::prelude::*;
use vstd::relations::sorted_by;
use crate::sorting::{pair_leq, sort_pairs, sort_times, time_leq};
use std::collections::{HashMap, HashSet};

verus! {

/// How close together unlocks have to be to belong to one run.
pub const BURST_WINDOW_SECS: u64 = 5;

/// How many unlocks a run needs to count as a burst.
pub const BURST_MIN: usize = 10;

/// How close together the starts of bursts have to be to form one sitting.
pub const CLUSTER_WINDOW_SECS: u64 = 60;

/// A run of unlocks that stands out.
#[derive(Clone, Copy, Debug, PartialEq, Eq)]
pub struct Burst {
    pub app_id: u32,
    /// Unlocks in the run.
    pub count: usize,
    /// Unix time of the first unlock.
    pub start: u32,
    /// Seconds from the first unlock to the last.
    pub span: u32,
    /// Unlocks of the same game before the run.
    pub earlier: usize,
    /// Unlocks of the same game after the run.
    pub later: usize,
    /// Of those after the run, the ones in runs too short to be bursts.
    pub ordinary_later: usize,
    /// The sitting the burst belongs to, numbered from the earliest.
    pub cluster: usize,
    /// How many games have bursts in that sitting.
    pub cluster_apps: usize,
}

/// Unlocks as `(app id, unix time)` pairs in lexicographic order, each fitting `u32`.
pub open spec fn is_stamp_order(s: Seq<(u64, u64)>) -> bool {
    &&& sorted_by(s, pair_leq())
    &&& forall|i: int| 0 <= i < s.len() ==> #[trigger] s[i].0 <= u32::MAX && s[i].1 <= u32::MAX
}

/// A new run starts at position `i`: the first unlock, a new game, or more
/// than the burst window after the unlock before it. The end counts as a start.
pub open spec fn breaks_at(s: Seq<(u64, u64)>, i: int) -> bool {
    i <= 0 || i >= s.len() || s[i].0 != s[i - 1].0 || s[i].1 - s[i - 1].1 > BURST_WINDOW_SECS
}

/// Where the run holding position `k` ends (exclusive).
pub open spec fn run_end_of(s: Seq<(u64, u64)>, k: int) -> int
    decreases s.len() - k,
{
    if k + 1 >= s.len() {
        s.len() as int
    } else if breaks_at(s, k + 1) {
        k + 1
    } else {
        run_end_of(s, k + 1)
    }
}

/// Where the run holding position `k` starts.
pub open spec fn run_start_of(s: Seq<(u64, u64)>, k: int) -> int
    decreases k,
{
    if k <= 0 || breaks_at(s, k) {
        k
    } else {
        run_start_of(s, k - 1)
    }
}

/// Where the unlocks of the game at position `k` end (exclusive).
pub open spec fn app_end_of(s: Seq<(u64, u64)>, k: int) -> int
    decreases s.len() - k,
{
    if k + 1 >= s.len() {
        s.len() as int
    } else if s[k + 1].0 != s[k].0 {
        k + 1
    } else {
        app_end_of(s, k + 1)
    }
}

/// Where the unlocks of the game at position `k` start.
pub open spec fn app_begin_of(s: Seq<(u64, u64)>, k: int) -> int
    decreases k,
{
    if k <= 0 || s[k - 1].0 != s[k].0 {
        k
    } else {
        app_begin_of(s, k - 1)
    }
}

/// How many of the positions `i..e` sit in runs too short to be bursts.
pub open spec fn ordinary_from(s: Seq<(u64, u64)>, i: int, e: int) -> int
    decreases e - i,
{
    if i >= e {
        0
    } else {
        (if run_end_of(s, i) - run_start_of(s, i) < BURST_MIN { 1int } else { 0int })
            + ordinary_from(s, i + 1, e)
    }
}

/// The burst made of the run that starts at position `i`.
pub open spec fn burst_at(s: Seq<(u64, u64)>, i: int) -> Burst {
    let e = run_end_of(s, i);
    let app_end = app_end_of(s, i);
    Burst {
        app_id: s[i].0 as u32,
        count: (e - i) as usize,
        start: s[i].1 as u32,
        span: (s[e - 1].1 - s[i].1) as u32,
        earlier: (i - app_begin_of(s, i)) as usize,
        later: (app_end - e) as usize,
        ordinary_later: ordinary_from(s, e, app_end) as usize,
        cluster: 0,
        cluster_apps: 1,
    }
}

/// The bursts among the runs starting at or after position `i`, in order.
pub open spec fn bursts_from(s: Seq<(u64, u64)>, i: int) -> Seq<Burst>
    decreases s.len() - i,
{
    if i >= s.len() {
        Seq::empty()
    } else if breaks_at(s, i) && run_end_of(s, i) - i >= BURST_MIN {
        seq![burst_at(s, i)] + bursts_from(s, i + 1)
    } else {
        bursts_from(s, i + 1)
    }
}

proof fn lemma_run_end(s: Seq<(u64, u64)>, k: int)
    requires
        0 <= k < s.len(),
    ensures
        k < run_end_of(s, k) <= s.len(),
        breaks_at(s, run_end_of(s, k)),
        forall|j: int| k < j < run_end_of(s, k) ==> !breaks_at(s, j),
        forall|j: int| k < j < run_end_of(s, k) ==> run_end_of(s, j) == run_end_of(s, k),
    decreases s.len() - k,
{
    if k + 1 < s.len() && !breaks_at(s, k + 1) {
        lemma_run_end(s, k + 1);
    }
}

proof fn lemma_run_start(s: Seq<(u64, u64)>, a: int, k: int)
    requires
        0 <= a <= k < s.len(),
        breaks_at(s, a),
        forall|j: int| a < j <= k ==> !breaks_at(s, j),
    ensures
        run_start_of(s, k) == a,
    decreases k,
{
    if k > a {
        lemma_run_start(s, a, k - 1);
    }
}

proof fn lemma_app_end(s: Seq<(u64, u64)>, k: int)
    requires
        0 <= k < s.len(),
    ensures
        k < app_end_of(s, k) <= s.len(),
        app_end_of(s, k) < s.len() ==> s[app_end_of(s, k)].0 != s[k].0,
        forall|j: int| k <= j < app_end_of(s, k) ==> s[j].0 == s[k].0,
        forall|j: int| k < j < app_end_of(s, k) ==> app_end_of(s, j) == app_end_of(s, k),
    decreases s.len() - k,
{
    if k + 1 < s.len() && s[k + 1].0 == s[k].0 {
        lemma_app_end(s, k + 1);
    }
}

proof fn lemma_app_begin(s: Seq<(u64, u64)>, a: int, k: int)
    requires
        0 <= a <= k < s.len(),
        a == 0 || s[a - 1].0 != s[a].0,
        forall|j: int| a <= j <= k ==> s[j].0 == s[a].0,
    ensures
        app_begin_of(s, k) == a,
    decreases k,
{
    if k > a {
        lemma_app_begin(s, a, k - 1);
    }
}

/// Inside a run, nothing new starts before its end.
proof fn lemma_bursts_skip_run(s: Seq<(u64, u64)>, k: int, e: int)
    requires
        0 <= k <= e <= s.len(),
        forall|j: int| k <= j < e ==> !breaks_at(s, j),
    ensures
        bursts_from(s, k) == bursts_from(s, e),
    decreases e - k,
{
    if k < e {
        lemma_bursts_skip_run(s, k + 1, e);
    }
}

/// The bursts from the start of a run on: the run itself if it is long
/// enough, then those from its end on.
proof fn lemma_run_bursts(s: Seq<(u64, u64)>, a: int)
    requires
        0 <= a < s.len(),
        breaks_at(s, a),
    ensures
        bursts_from(s, a) == (if run_end_of(s, a) - a >= BURST_MIN {
            seq![burst_at(s, a)]
        } else {
            Seq::empty()
        }) + bursts_from(s, run_end_of(s, a)),
{
    lemma_run_end(s, a);
    lemma_bursts_skip_run(s, a + 1, run_end_of(s, a));
    if run_end_of(s, a) - a >= BURST_MIN {
    } else {
        assert(bursts_from(s, a) =~= Seq::<Burst>::empty() + bursts_from(s, run_end_of(s, a)));
    }
}

/// A run contributes its whole length, or nothing, to the ordinary count.
proof fn lemma_ordinary_run(s: Seq<(u64, u64)>, a: int, k: int, b: int, e: int)
    requires
        0 <= a <= k <= b <= e <= s.len(),
        a < s.len(),
        breaks_at(s, a),
        b == run_end_of(s, a),
    ensures
        ordinary_from(s, k, e) == (b - k) * (if b - a < BURST_MIN { 1int } else { 0int })
            + ordinary_from(s, b, e),
    decreases b - k,
{
    lemma_run_end(s, a);
    if k < b {
        lemma_ordinary_run(s, a, k + 1, b, e);
        if k > a {
            assert(run_end_of(s, k) == b);
        }
        lemma_run_start(s, a, k);
    }
}

/// The unlocks of one game: positions `app_start..app_end`, preceded and
/// followed by other games (or nothing).
pub open spec fn is_app_block(s: Seq<(u64, u64)>, app_start: int, app_end: int) -> bool {
    &&& 0 <= app_start < app_end <= s.len()
    &&& app_start == 0 || s[app_start - 1].0 != s[app_start].0
    &&& app_end == s.len() || s[app_end].0 != s[app_start].0
    &&& forall|j: int| app_start <= j < app_end ==> #[trigger] s[j].0 == s[app_start].0
}

/// `runs` lists the runs of a game's block in order, as (start, end) positions.
pub open spec fn is_run_list(
    s: Seq<(u64, u64)>,
    runs: Seq<(usize, usize)>,
    app_start: int,
    app_end: int,
) -> bool {
    &&& 0 < runs.len() <= app_end - app_start
    &&& runs[0].0 == app_start
    &&& runs.last().1 == app_end
    &&& forall|r: int|
        0 <= r < runs.len() ==> {
            &&& app_start <= #[trigger] runs[r].0 < runs[r].1 <= app_end
            &&& breaks_at(s, runs[r].0 as int)
            &&& runs[r].1 == run_end_of(s, runs[r].0 as int)
        }
    &&& forall|r: int| 0 <= r < runs.len() - 1 ==> #[trigger] runs[r].1 == runs[r + 1].0
}

/// Where the block of the game at `app_start` ends.
fn find_app_end(s: &Vec<(u64, u64)>, app_start: usize) -> (app_end: usize)
    requires
        is_stamp_order(s@),
        app_start < s@.len(),
        app_start == 0 || s@[app_start - 1].0 != s@[app_start as int].0,
    ensures
        is_app_block(s@, app_start as int, app_end as int),
        app_end == app_end_of(s@, app_start as int),
        forall|j: int| app_start <= j < app_end ==> app_begin_of(s@, j) == app_start,
        forall|j: int| app_start <= j < app_end ==> app_end_of(s@, j) == app_end,
{
    let ghost ss = s@;
    let n = s.len();
    let app_id = s[app_start].0;
    let mut app_end = app_start + 1;
    while app_end < n && s[app_end].0 == app_id
        invariant
            n == ss.len(),
            ss == s@,
            app_start < app_end <= n,
            app_id == ss[app_start as int].0,
            forall|j: int| app_start <= j < app_end ==> ss[j].0 == app_id,
        decreases n - app_end,
    {
        app_end = app_end + 1;
    }
    proof {
        lemma_app_end(ss, app_start as int);
        assert(app_end_of(ss, app_start as int) == app_end) by {
            if app_end_of(ss, app_start as int) < app_end {
                assert(ss[app_end_of(ss, app_start as int)].0 != app_id);
            }
        }
        assert forall|j: int| app_start <= j < app_end implies app_begin_of(ss, j)
            == app_start by {
            lemma_app_begin(ss, app_start as int, j);
        }
    }
    app_end
}

/// The runs of a game's block.
fn collect_runs(s: &Vec<(u64, u64)>, app_start: usize, app_end: usize) -> (runs: Vec<(usize, usize)>)
    requires
        is_stamp_order(s@),
        s@.len() < usize::MAX,
        is_app_block(s@, app_start as int, app_end as int),
    ensures
        is_run_list(s@, runs@, app_start as int, app_end as int),
{
    let ghost ss = s@;
    let ghost app_id = ss[app_start as int].0;
    let mut runs: Vec<(usize, usize)> = Vec::new();
    let mut run_start: usize = app_start;
    let mut i: usize = app_start + 1;
    while i <= app_end
        invariant
            ss == s@,
            ss.len() < usize::MAX,
            is_stamp_order(ss),
            is_app_block(ss, app_start as int, app_end as int),
            app_id == ss[app_start as int].0,
            app_start <= run_start < i <= app_end + 1,
            run_start <= app_end,
            breaks_at(ss, run_start as int),
            forall|j: int| run_start < j < i && j <= app_end ==> !breaks_at(ss, j),
            i == app_end + 1 ==> run_start == app_end,
            runs@.len() == 0 ==> run_start == app_start,
            runs@.len() <= run_start - app_start,
            runs@.len() > 0 ==> runs@[0].0 == app_start && runs@.last().1 == run_start,
            forall|r: int|
                0 <= r < runs@.len() ==> {
                    &&& app_start <= #[trigger] runs@[r].0 < runs@[r].1 <= app_end
                    &&& breaks_at(ss, runs@[r].0 as int)
                    &&& runs@[r].1 == run_end_of(ss, runs@[r].0 as int)
                },
            forall|r: int| 0 <= r < runs@.len() - 1 ==> #[trigger] runs@[r].1 == runs@[r + 1].0,
        decreases app_end + 1 - i,
    {
        let breaks = if i == app_end {
            true
        } else {
            proof {
                assert((pair_leq())(ss[i - 1], ss[i as int]));
                assert(ss[i - 1].0 == app_id && ss[i as int].0 == app_id);
                assert(ss[i - 1].1 <= ss[i as int].1);
            }
            s[i].1 - s[i - 1].1 > 5
        };
        if breaks {
            proof {
                lemma_run_end(ss, run_start as int);
                assert(breaks_at(ss, i as int));
                assert(run_end_of(ss, run_start as int) == i) by {
                    if run_end_of(ss, run_start as int) < i {
                        assert(!breaks_at(ss, run_end_of(ss, run_start as int)));
                    }
                }
            }
            runs.push((run_start, i));
            run_start = i;
        } else {
            proof {
                assert(!breaks_at(ss, i as int));
            }
        }
        i = i + 1;
    }
    runs
}

/// `n` zeros.
fn zeros(n: usize) -> (v: Vec<usize>)
    ensures
        v@.len() == n,
        forall|r: int| 0 <= r < n ==> v@[r] == 0,
{
    let mut v: Vec<usize> = Vec::new();
    let mut z: usize = 0;
    while z < n
        invariant
            v@.len() == z,
            z <= n,
            forall|r: int| 0 <= r < z ==> v@[r] == 0,
        decreases n - z,
    {
        v.push(0);
        z = z + 1;
    }
    v
}

/// For each run of a game's block, the ordinary unlocks from its start to the
/// end of the block; one more entry, 0, for the end itself.
#[verifier::rlimit(40)]
fn ordinary_counts(s: &Vec<(u64, u64)>, runs: &Vec<(usize, usize)>, app_start: usize, app_end: usize) -> (ordinary: Vec<usize>)
    requires
        s@.len() < usize::MAX,
        is_app_block(s@, app_start as int, app_end as int),
        is_run_list(s@, runs@, app_start as int, app_end as int),
    ensures
        ordinary@.len() == runs@.len() + 1,
        forall|r: int|
            0 <= r < runs@.len() ==> #[trigger] ordinary@[r] == ordinary_from(
                s@,
                runs@[r].0 as int,
                app_end as int,
            ),
        ordinary@[runs@.len() as int] == 0,
{
    let ghost ss = s@;
    let nruns = runs.len();
    let mut ordinary = zeros(nruns + 1);
    let mut idx: usize = nruns;
    while idx > 0
        invariant
            ss == s@,
            is_app_block(ss, app_start as int, app_end as int),
            is_run_list(ss, runs@, app_start as int, app_end as int),
            nruns == runs@.len(),
            ordinary@.len() == nruns + 1,
            idx <= nruns,
            forall|r: int|
                idx <= r < nruns ==> #[trigger] ordinary@[r] == ordinary_from(
                    ss,
                    runs@[r].0 as int,
                    app_end as int,
                ),
            ordinary@[nruns as int] == 0,
            forall|r: int|
                idx <= r < nruns ==> #[trigger] ordinary@[r] <= app_end - runs@[r].0,
        decreases idx,
    {
        let k = idx - 1;
        proof {
            assert(app_start <= runs@[k as int].0 < runs@[k as int].1 <= app_end);
        }
        let (start, end) = runs[k];
        let short = if end - start < 10 { end - start } else { 0 };
        proof {
            lemma_ordinary_run(ss, start as int, start as int, end as int, app_end as int);
            if k + 1 < nruns {
                assert(runs@[k as int].1 == runs@[k + 1].0);
                assert(ordinary@[k + 1] <= app_end - runs@[k + 1].0);
            } else {
                assert(end == app_end);
                assert(ordinary_from(ss, app_end as int, app_end as int) == 0);
            }
        }
        let next = ordinary[k + 1] + short;
        let ghost old_ordinary = ordinary@;
        ordinary.set(k, next);
        proof {
            assert(ordinary@ == old_ordinary.update(k as int, next));
            assert(next == ordinary_from(ss, runs@[k as int].0 as int, app_end as int));
        }
        idx = k;
    }
    ordinary
}

/// Adds the bursts of a game's block to `bursts`.
fn push_app_bursts(
    s: &Vec<(u64, u64)>,
    runs: &Vec<(usize, usize)>,
    ordinary: &Vec<usize>,
    app_start: usize,
    app_end: usize,
    bursts: &mut Vec<Burst>,
)
    requires
        is_stamp_order(s@),
        s@.len() < usize::MAX,
        is_app_block(s@, app_start as int, app_end as int),
        is_run_list(s@, runs@, app_start as int, app_end as int),
        ordinary@.len() == runs@.len() + 1,
        forall|r: int|
            0 <= r < runs@.len() ==> #[trigger] ordinary@[r] == ordinary_from(
                s@,
                runs@[r].0 as int,
                app_end as int,
            ),
        ordinary@[runs@.len() as int] == 0,
        forall|j: int| app_start <= j < app_end ==> app_begin_of(s@, j) == app_start,
        forall|j: int| app_start <= j < app_end ==> app_end_of(s@, j) == app_end,
    ensures
        final(bursts)@ + bursts_from(s@, app_end as int) == old(bursts)@ + bursts_from(
            s@,
            app_start as int,
        ),
{
    let ghost ss = s@;
    let ghost initial = bursts@;
    let nruns = runs.len();
    let mut r: usize = 0;
    while r < nruns
        invariant
            ss == s@,
            is_stamp_order(ss),
            is_app_block(ss, app_start as int, app_end as int),
            is_run_list(ss, runs@, app_start as int, app_end as int),
            nruns == runs@.len(),
            r <= nruns,
            ordinary@.len() == nruns + 1,
            forall|r2: int|
                0 <= r2 < nruns ==> #[trigger] ordinary@[r2] == ordinary_from(
                    ss,
                    runs@[r2].0 as int,
                    app_end as int,
                ),
            ordinary@[nruns as int] == 0,
            forall|j: int| app_start <= j < app_end ==> app_begin_of(ss, j) == app_start,
            forall|j: int| app_start <= j < app_end ==> app_end_of(ss, j) == app_end,
            bursts@ + bursts_from(
                ss,
                (if r < nruns {
                    runs@[r as int].0
                } else {
                    app_end
                }) as int,
            ) == initial + bursts_from(ss, app_start as int),
        decreases nruns - r,
    {
        proof {
            assert(app_start <= runs@[r as int].0 < runs@[r as int].1 <= app_end);
        }
        let (start, end) = runs[r];
        let ghost before = bursts@;
        proof {
            lemma_run_bursts(ss, start as int);
            if r + 1 < nruns {
                assert(runs@[r as int].1 == runs@[r + 1].0);
                assert(ordinary@[r + 1] == ordinary_from(ss, end as int, app_end as int));
            } else {
                assert(ordinary_from(ss, app_end as int, app_end as int) == 0);
            }
        }
        if end - start >= 10 {
            proof {
                assert(ss[start as int].0 == ss[app_start as int].0);
                assert(ss[end - 1].0 == ss[app_start as int].0);
                assert((pair_leq())(ss[start as int], ss[end - 1]));
            }
            let burst = Burst {
                app_id: s[start].0 as u32,
                count: end - start,
                start: s[start].1 as u32,
                span: (s[end - 1].1 - s[start].1) as u32,
                earlier: start - app_start,
                later: app_end - end,
                ordinary_later: ordinary[r + 1],
                cluster: 0,
                cluster_apps: 1,
            };
            bursts.push(burst);
            proof {
                assert(burst == burst_at(ss, start as int));
                assert(bursts@ + bursts_from(ss, end as int) =~= before + bursts_from(
                    ss,
                    start as int,
                ));
            }
        } else {
            proof {
                assert(bursts_from(ss, start as int) =~= bursts_from(ss, end as int));
            }
        }
        r = r + 1;
    }
}

/// The bursts among unlocks in stamp order, game by game and run by run.
fn find_bursts(s: &Vec<(u64, u64)>) -> (bursts: Vec<Burst>)
    requires
        is_stamp_order(s@),
        s@.len() < usize::MAX,
    ensures
        bursts@ == bursts_from(s@, 0),
{
    let n = s.len();
    let ghost ss = s@;
    let mut bursts: Vec<Burst> = Vec::new();
    let mut app_start: usize = 0;
    while app_start < n
        invariant
            n == ss.len(),
            n < usize::MAX,
            ss == s@,
            is_stamp_order(ss),
            app_start <= n,
            app_start == 0 || app_start == n || ss[app_start - 1].0 != ss[app_start as int].0,
            bursts@ + bursts_from(ss, app_start as int) == bursts_from(ss, 0),
        decreases n - app_start,
    {
        let app_end = find_app_end(s, app_start);
        let runs = collect_runs(s, app_start, app_end);
        let ordinary = ordinary_counts(s, &runs, app_start, app_end);
        let ghost before = bursts@;
        push_app_bursts(s, &runs, &ordinary, app_start, app_end, &mut bursts);
        proof {
            assert(bursts@ + bursts_from(ss, app_end as int) == before + bursts_from(
                ss,
                app_start as int,
            ));
            assert(bursts@ + bursts_from(ss, app_end as int) =~= bursts_from(ss, 0));
        }
        app_start = app_end;
    }
    assert(bursts_from(ss, n as int) =~= Seq::<Burst>::empty());
    assert(bursts@ =~= bursts@ + bursts_from(ss, n as int));
    bursts
}

/// The start times of the bursts, earliest first.
pub open spec fn sorted_starts(b: Seq<Burst>) -> Seq<u64> {
    b.map_values(|x: Burst| x.start as u64).sort_by(time_leq())
}

/// Among the first `n` sorted starts, the gaps of more than the cluster window
/// that end at or before `v`.
pub open spec fn gaps_up_to(t: Seq<u64>, n: int, v: u64) -> int
    decreases n,
{
    if n <= 1 {
        0
    } else {
        gaps_up_to(t, n - 1, v) + (if t[n - 1] <= v && t[n - 1] - t[n - 2] > CLUSTER_WINDOW_SECS {
            1int
        } else {
            0int
        })
    }
}

/// The sitting of a burst starting at `v`: how many wide gaps lie between the
/// earliest start and it.
pub open spec fn cluster_of(b: Seq<Burst>, v: u64) -> int {
    gaps_up_to(sorted_starts(b), b.len() as int, v)
}

/// The games with a burst in sitting `c`.
pub open spec fn cluster_games(b: Seq<Burst>, c: int) -> Set<u32> {
    Set::new(|a: u32| exists|j: int| 0 <= j < b.len() && b[j].app_id == a && cluster_of(b, b[j].start as u64) == c)
}

/// The bursts with their sitting and its number of games filled in.
pub open spec fn with_clusters(b: Seq<Burst>) -> Seq<Burst> {
    Seq::new(
        b.len(),
        |i: int|
            Burst {
                app_id: b[i].app_id,
                count: b[i].count,
                start: b[i].start,
                span: b[i].span,
                earlier: b[i].earlier,
                later: b[i].later,
                ordinary_later: b[i].ordinary_later,
                cluster: cluster_of(b, b[i].start as u64) as usize,
                cluster_apps: cluster_games(b, cluster_of(b, b[i].start as u64)).len() as usize,
            },
    )
}

/// How many wide gaps in the sorted starts `t` end at or before `v`.
fn count_gaps_up_to(t: &Vec<u64>, v: u64) -> (c: usize)
    requires
        sorted_by(t@, time_leq()),
    ensures
        c == gaps_up_to(t@, t@.len() as int, v),
{
    if t.len() == 0 {
        return 0;
    }
    let mut c: usize = 0;
    let mut j: usize = 1;
    while j < t.len()
        invariant
            1 <= j <= t@.len(),
            sorted_by(t@, time_leq()),
            c == gaps_up_to(t@, j as int, v),
            c <= j,
        decreases t.len() - j,
    {
        proof {
            assert((time_leq())(t@[j - 1], t@[j as int]));
        }
        if t[j] <= v && t[j] - t[j - 1] > 60 {
            c = c + 1;
        }
        j = j + 1;
    }
    c
}

/// Fills in each burst's sitting (numbered from the earliest) and the number of
/// games in it.
pub fn mark_clusters(bursts: &mut Vec<Burst>)
    ensures
        final(bursts)@ == with_clusters(old(bursts)@),
{
    broadcast use vstd::std_specs::hash::group_hash_axioms;

    let ghost b = bursts@;
    let n = bursts.len();
    let mut starts: Vec<u64> = Vec::new();
    let mut i: usize = 0;
    while i < n
        invariant
            n == b.len(),
            b == bursts@,
            i <= n,
            starts@ =~= b.map_values(|x: Burst| x.start as u64).take(i as int),
        decreases n - i,
    {
        starts.push(bursts[i].start as u64);
        i = i + 1;
    }
    assert(starts@ =~= b.map_values(|x: Burst| x.start as u64));
    let sorted = sort_times(&starts);
    proof {
        starts@.lemma_sort_by_ensures(time_leq());
        vstd::seq_lib::to_multiset_len(starts@);
        vstd::seq_lib::to_multiset_len(sorted@);
    }
    let mut clusters: Vec<usize> = Vec::new();
    let mut k: usize = 0;
    while k < n
        invariant
            n == b.len(),
            b == bursts@,
            k <= n,
            sorted@ == sorted_starts(b),
            sorted@.len() == n,
            sorted_by(sorted@, time_leq()),
            clusters@.len() == k,
            forall|m: int| 0 <= m < k ==> clusters@[m] == cluster_of(b, b[m].start as u64),
        decreases n - k,
    {
        let c = count_gaps_up_to(&sorted, bursts[k].start as u64);
        clusters.push(c);
        k = k + 1;
    }
    let mut out: Vec<Burst> = Vec::new();
    let mut p: usize = 0;
    while p < n
        invariant
            n == b.len(),
            b == bursts@,
            p <= n,
            clusters@.len() == n,
            forall|m: int| 0 <= m < n ==> clusters@[m] == cluster_of(b, b[m].start as u64),
            out@ =~= with_clusters(b).take(p as int),
        decreases n - p,
    {
        let c = clusters[p];
        let mut games: HashSet<u32> = HashSet::new();
        let mut q: usize = 0;
        while q < n
            invariant
                n == b.len(),
                b == bursts@,
                q <= n,
                clusters@.len() == n,
                c == cluster_of(b, b[p as int].start as u64),
                forall|m: int| 0 <= m < n ==> clusters@[m] == cluster_of(b, b[m].start as u64),
                games@ == Set::new(
                    |a: u32|
                        exists|j: int|
                            0 <= j < q && b[j].app_id == a && cluster_of(b, b[j].start as u64) == c,
                ),
            decreases n - q,
        {
            let ghost before = games@;
            if clusters[q] == c {
                games.insert(bursts[q].app_id);
            }
            proof {
                assert(games@ =~= Set::new(
                    |a: u32|
                        exists|j: int|
                            0 <= j < q + 1 && b[j].app_id == a && cluster_of(b, b[j].start as u64)
                                == c,
                ));
            }
            q = q + 1;
        }
        let src = bursts[p];
        let marked = Burst {
            app_id: src.app_id,
            count: src.count,
            start: src.start,
            span: src.span,
            earlier: src.earlier,
            later: src.later,
            ordinary_later: src.ordinary_later,
            cluster: c,
            cluster_apps: games.len(),
        };
        proof {
            assert(games@ =~= cluster_games(b, c as int));
        }
        out.push(marked);
        p = p + 1;
    }
    *bursts = out;
}

/// The bursts, latest start first; bursts starting together keep their order.
pub open spec fn newest_first(b: Seq<Burst>) -> Seq<Burst> {
    Seq::new(b.len(), |i: int| ((u32::MAX - b[i].start) as u64, i as u64)).sort_by(
        pair_leq(),
    ).map_values(|p: (u64, u64)| b[p.1 as int])
}

/// Reorders the bursts latest start first.
fn order_newest_first(bursts: Vec<Burst>) -> (out: Vec<Burst>)
    ensures
        out@ == newest_first(bursts@),
{
    let ghost b = bursts@;
    let n = bursts.len();
    let mut keys: Vec<(u64, u64)> = Vec::new();
    let mut i: usize = 0;
    while i < n
        invariant
            n == b.len(),
            b == bursts@,
            i <= n,
            keys@ =~= Seq::new(b.len(), |k: int| ((u32::MAX - b[k].start) as u64, k as u64)).take(
                i as int,
            ),
        decreases n - i,
    {
        keys.push(((u32::MAX - bursts[i].start) as u64, i as u64));
        i = i + 1;
    }
    let ghost all_keys = Seq::new(b.len(), |k: int| ((u32::MAX - b[k].start) as u64, k as u64));
    assert(keys@ =~= all_keys);
    let sorted = sort_pairs(&keys);
    proof {
        crate::sorting::lemma_pair_leq_total();
        all_keys.lemma_sort_by_ensures(pair_leq());
        vstd::seq_lib::to_multiset_len(all_keys);
        vstd::seq_lib::to_multiset_len(sorted@);
    }
    let mut out: Vec<Burst> = Vec::new();
    let mut j: usize = 0;
    while j < sorted.len()
        invariant
            n == b.len(),
            b == bursts@,
            sorted@ == all_keys.sort_by(pair_leq()),
            sorted@.to_multiset() == all_keys.to_multiset(),
            all_keys == Seq::new(b.len(), |k: int| ((u32::MAX - b[k].start) as u64, k as u64)),
            j <= sorted@.len(),
            out@ =~= sorted@.take(j as int).map_values(|p: (u64, u64)| b[p.1 as int]),
        decreases sorted.len() - j,
    {
        let key = sorted[j];
        proof {
            assert(sorted@.contains(key));
            vstd::seq_lib::to_multiset_contains(sorted@, key);
            vstd::seq_lib::to_multiset_contains(all_keys, key);
            let w = choose|w: int| 0 <= w < all_keys.len() && all_keys[w] == key;
            assert(key.1 == w);
        }
        out.push(bursts[key.1 as usize]);
        j = j + 1;
    }
    assert(sorted@.take(sorted@.len() as int) =~= sorted@);
    out
}

/// One unlock as Steam records it.
#[derive(Clone, Copy, Debug, PartialEq, Eq)]
pub struct UnlockStamp {
    pub app_id: u32,
    pub unlock_time: u32,
}

/// Everything read from Steam's local unlock records.
pub struct UnlockCache {
    pub stamps: Vec<UnlockStamp>,
    /// The games whose records were found.
    pub apps: HashSet<u32>,
    pub last_full_scan: Option<u64>,
}

/// An unlock placed on a civil day.
#[derive(Clone, Copy, Debug, PartialEq, Eq)]
pub struct DayStamp {
    pub app_id: u32,
    pub day: i32,
}

/// What the profile page draws from the unlock records.
pub struct Timeline {
    /// Unlocks per civil day.
    pub per_day: HashMap<i32, u32>,
    /// The games with an unlock on each civil day.
    pub apps_per_day: HashMap<i32, HashSet<u32>>,
    /// The bursts, latest first.
    pub bursts: Vec<Burst>,
    /// How many unlocks were read.
    pub total: usize,
    /// The earliest unlock time, if any.
    pub first: Option<u32>,
    pub cached_apps: HashSet<u32>,
    /// The unlocks that have a day, in time order.
    pub chronology: Vec<DayStamp>,
    pub last_full_scan: Option<u64>,
}

/// Unlocks as `(app id, time)` pairs, in record order.
pub open spec fn stamp_pairs(stamps: Seq<UnlockStamp>) -> Seq<(u64, u64)> {
    stamps.map_values(|x: UnlockStamp| (x.app_id as u64, x.unlock_time as u64))
}

/// How many of the days are `d`.
pub open spec fn count_day(days: Seq<Option<i32>>, d: i32) -> nat
    decreases days.len(),
{
    if days.len() == 0 {
        0
    } else {
        count_day(days.drop_last(), d) + (if days.last() == Some(d) { 1nat } else { 0nat })
    }
}

/// The histogram of the days that are known.
pub open spec fn day_histogram(days: Seq<Option<i32>>) -> Map<i32, u32> {
    Map::new(
        |d: i32| exists|i: int| 0 <= i < days.len() && days[i] == Some(d),
        |d: i32| count_day(days, d) as u32,
    )
}

/// The games with an unlock on day `d`.
pub open spec fn games_on_day(stamps: Seq<UnlockStamp>, days: Seq<Option<i32>>, d: i32) -> Set<
    u32,
> {
    Set::new(
        |a: u32|
            exists|i: int| 0 <= i < days.len() && days[i] == Some(d) && stamps[i].app_id == a,
    )
}

/// The unlocks that have a day, as `(time, position)` keys, in record order.
pub open spec fn dated_keys(stamps: Seq<UnlockStamp>, days: Seq<Option<i32>>, n: int) -> Seq<
    (u64, u64),
>
    decreases n,
{
    if n <= 0 {
        Seq::empty()
    } else {
        let rest = dated_keys(stamps, days, n - 1);
        if days[n - 1] is Some {
            rest.push((stamps[n - 1].unlock_time as u64, (n - 1) as u64))
        } else {
            rest
        }
    }
}

/// The dated unlocks in time order; unlocks at the same second keep their
/// record order.
pub open spec fn chronology_of(stamps: Seq<UnlockStamp>, days: Seq<Option<i32>>) -> Seq<DayStamp> {
    dated_keys(stamps, days, stamps.len() as int).sort_by(pair_leq()).map_values(
        |p: (u64, u64)| DayStamp { app_id: stamps[p.1 as int].app_id, day: days[p.1 as int]->0 },
    )
}

/// The earliest unlock time.
pub open spec fn is_earliest(stamps: Seq<UnlockStamp>, t: u32) -> bool {
    &&& exists|i: int| 0 <= i < stamps.len() && stamps[i].unlock_time == t
    &&& forall|i: int| 0 <= i < stamps.len() ==> t <= #[trigger] stamps[i].unlock_time
}

/// The bursts of the records, with their sittings, latest first.
pub open spec fn bursts_of(stamps: Seq<UnlockStamp>) -> Seq<Burst> {
    newest_first(with_clusters(bursts_from(stamp_pairs(stamps).sort_by(pair_leq()), 0)))
}

/// A UTC offset in seconds as a time zone can give it.
pub open spec fn is_plausible_offset(offset: i64) -> bool {
    -9_300_000_000_000 <= offset <= 9_300_000_000_000
}

/// The civil day of `unix_seconds` in a time zone `offset` seconds ahead of UTC.
pub open spec fn local_day(unix_seconds: u32, offset: i64) -> i32 {
    ((unix_seconds + offset) / 86_400) as i32
}

/// The hour a unix time falls in; a time zone's offset only changes on a whole hour.
pub open spec fn hour_of(unix_seconds: u32) -> i64 {
    (unix_seconds / 3600) as i64
}

/// The day of `unix_seconds` in a time zone `offset` seconds ahead of UTC, or
/// `None` when the zone could not place it.
pub open spec fn day_from_offset(unix_seconds: u32, offset: Option<i64>) -> Option<i32> {
    match offset {
        Some(o) => Some(local_day(unix_seconds, o)),
        None => None,
    }
}

/// A lookup of a time zone's offset that gives the same answer for any two
/// times in one UTC hour: a zone's offset only changes on a whole hour.
pub open spec fn lookup_is_hourly<F: Fn(u32) -> Option<i64>>(lookup: F) -> bool {
    forall|a: u32, b: u32, ra: Option<i64>, rb: Option<i64>|
        #![trigger call_ensures(lookup, (a,), ra), call_ensures(lookup, (b,), rb)]
        call_ensures(lookup, (a,), ra) && call_ensures(lookup, (b,), rb) && hour_of(a) == hour_of(b)
            ==> ra == rb
}

/// Every offset remembered for an hour is one `lookup` gave for a time in
/// that hour.
pub open spec fn remembers_lookup<F: Fn(u32) -> Option<i64>>(offsets: Map<i64, i64>, lookup: F) -> bool {
    forall|h: i64| #[trigger]
        offsets.contains_key(h) ==> exists|s: u32|
            hour_of(s) == h && call_ensures(lookup, (s,), Some(offsets[h]))
}

/// Civil days for a stream of unlock times, remembering the time zone's offset
/// for each hour already seen.
pub struct LocalDays {
    offset_by_hour: HashMap<i64, i64>,
}

impl View for LocalDays {
    type V = Map<i64, i64>;

    closed spec fn view(&self) -> Map<i64, i64> {
        self.offset_by_hour@
    }
}

impl LocalDays {
    /// The offsets it remembers are ones a time zone can give.
    pub closed spec fn wf(&self) -> bool {
        forall|h: i64| #[trigger] self.offset_by_hour@.contains_key(h) ==> is_plausible_offset(
            self.offset_by_hour@[h],
        )
    }

    /// Nothing remembered yet.
    pub fn new() -> (days: Self)
        ensures
            days@ == Map::<i64, i64>::empty(),
            days.wf(),
    {
        LocalDays { offset_by_hour: HashMap::new() }
    }

    /// The day of `unix_seconds`, if the offset of its hour is already known.
    pub fn cached_day(&self, unix_seconds: u32) -> (day: Option<i32>)
        requires
            self.wf(),
        ensures
            day == (if self@.contains_key(hour_of(unix_seconds)) {
                Some(local_day(unix_seconds, self@[hour_of(unix_seconds)]))
            } else {
                None
            }),
    {
        broadcast use vstd::std_specs::hash::group_hash_axioms;

        let hour: i64 = unix_seconds as i64 / 3600;
        match self.offset_by_hour.get(&hour) {
            Some(offset) => {
                let offset = *offset;
                let shifted: i64 = unix_seconds as i64 + offset;
                let day: i64 = if shifted >= 0 {
                    shifted / 86_400
                } else {
                    (shifted - 86_399) / 86_400
                };
                Some(day as i32)
            },
            None => None,
        }
    }

    /// The day of `unix_seconds` in the time zone whose offset `lookup` gives
    /// (`None` where the zone cannot place a time): the offset remembered for
    /// its hour if there is one, else the one `lookup` gives, which is then
    /// remembered. As long as the zone's offset only changes on whole hours,
    /// remembering never changes an answer: every call gives the zone's own
    /// day, and the `LocalDays` stays one that remembers only what the zone
    /// gave, so the same holds of the next call.
    pub fn day_of<F: Fn(u32) -> Option<i64>>(&mut self, unix_seconds: u32, lookup: F) -> (day: Option<i32>)
        requires
            old(self).wf(),
            call_requires(lookup, (unix_seconds,)),
            forall|r: Option<i64>| #[trigger]
                call_ensures(lookup, (unix_seconds,), r) ==> (r matches Some(o) ==> is_plausible_offset(o)),
            lookup_is_hourly(lookup),
            remembers_lookup(old(self)@, lookup),
        ensures
            final(self).wf(),
            remembers_lookup(final(self)@, lookup),
            forall|r: Option<i64>| #[trigger]
                call_ensures(lookup, (unix_seconds,), r) ==> day == day_from_offset(unix_seconds, r),
            exists|w: u32, r: Option<i64>|
                #![trigger call_ensures(lookup, (w,), r)]
                hour_of(w) == hour_of(unix_seconds) && call_ensures(lookup, (w,), r) && day
                    == day_from_offset(unix_seconds, r),
            old(self)@.contains_key(hour_of(unix_seconds)) ==> final(self)@ == old(self)@,
    {
        let cached = self.cached_day(unix_seconds);
        match cached {
            Some(day) => {
                proof {
                    let h = hour_of(unix_seconds);
                    let w = choose|w: u32| hour_of(w) == h && call_ensures(lookup, (w,), Some(old(self)@[h]));
                    assert forall|r: Option<i64>| #[trigger]
                        call_ensures(lookup, (unix_seconds,), r) implies Some(day) == day_from_offset(unix_seconds, r) by {
                        assert(r == Some(old(self)@[h]));
                    }
                    assert(hour_of(w) == hour_of(unix_seconds) && call_ensures(lookup, (w,), Some(old(self)@[h]))
                        && Some(day) == day_from_offset(unix_seconds, Some(old(self)@[h])));
                }
                Some(day)
            },
            None => {
                let offset = lookup(unix_seconds);
                let day = self.day_with_offset(unix_seconds, offset);
                proof {
                    assert forall|h: i64| #[trigger] self@.contains_key(h) implies exists|w: u32|
                        hour_of(w) == h && call_ensures(lookup, (w,), Some(self@[h])) by {
                        if h != hour_of(unix_seconds) {
                            assert(old(self)@.contains_key(h));
                        } else {
                            assert(hour_of(unix_seconds) == h && call_ensures(lookup, (unix_seconds,), Some(self@[h])));
                        }
                    }
                    assert forall|r: Option<i64>| #[trigger]
                        call_ensures(lookup, (unix_seconds,), r) implies day == day_from_offset(unix_seconds, r) by {
                        assert(r == offset);
                    }
                    assert(call_ensures(lookup, (unix_seconds,), offset) && day == day_from_offset(unix_seconds, offset));
                }
                day
            },
        }
    }

    /// The day of `unix_seconds` from the offset the time zone gives for it,
    /// which is remembered for its hour; `None` when the time zone could not
    /// place it.
    pub fn day_with_offset(&mut self, unix_seconds: u32, offset: Option<i64>) -> (day: Option<i32>)
        requires
            old(self).wf(),
            offset matches Some(o) ==> is_plausible_offset(o),
        ensures
            final(self).wf(),
            day == (match offset {
                Some(o) => Some(local_day(unix_seconds, o)),
                None => None,
            }),
            final(self)@ == (match offset {
                Some(o) => old(self)@.insert(hour_of(unix_seconds), o),
                None => old(self)@,
            }),
    {
        broadcast use vstd::std_specs::hash::group_hash_axioms;

        match offset {
            Some(offset) => {
                let hour: i64 = unix_seconds as i64 / 3600;
                self.offset_by_hour.insert(hour, offset);
                let shifted: i64 = unix_seconds as i64 + offset;
                let day: i64 = if shifted >= 0 {
                    shifted / 86_400
                } else {
                    (shifted - 86_399) / 86_400
                };
                Some(day as i32)
            },
            None => None,
        }
    }
}

/// A time zone seen as the offset it gives each unix time, or `None` where it
/// cannot place it, whose offset only changes on a whole UTC hour.
pub open spec fn offset_is_hourly(zone: spec_fn(u32) -> Option<i64>) -> bool {
    forall|a: u32, b: u32| #![trigger zone(a), zone(b)] hour_of(a) == hour_of(b) ==> zone(a) == zone(b)
}

/// Every offset remembered for an hour is one the zone gives in that hour.
pub open spec fn remembers_from(offsets: Map<i64, i64>, zone: spec_fn(u32) -> Option<i64>) -> bool {
    forall|h: i64| #[trigger]
        offsets.contains_key(h) ==> exists|s: u32| hour_of(s) == h && zone(s) == Some(offsets[h])
}

/// The civil day the zone places `unix_seconds` on.
pub open spec fn zone_day(zone: spec_fn(u32) -> Option<i64>, unix_seconds: u32) -> Option<i32> {
    match zone(unix_seconds) {
        Some(o) => Some(local_day(unix_seconds, o)),
        None => None,
    }
}

/// The days a `LocalDays` holding `offsets` answers for `stamps` in turn:
/// from the remembered offset of the stamp's hour (`cached_day`), else from
/// the zone's offset, which is then remembered (`day_with_offset`).
pub open spec fn days_of(
    offsets: Map<i64, i64>,
    zone: spec_fn(u32) -> Option<i64>,
    stamps: Seq<u32>,
) -> Seq<Option<i32>>
    decreases stamps.len(),
{
    if stamps.len() == 0 {
        Seq::empty()
    } else {
        let s = stamps[0];
        let h = hour_of(s);
        if offsets.contains_key(h) {
            seq![Some(local_day(s, offsets[h]))] + days_of(offsets, zone, stamps.drop_first())
        } else {
            match zone(s) {
                Some(o) => seq![Some(local_day(s, o))] + days_of(
                    offsets.insert(h, o),
                    zone,
                    stamps.drop_first(),
                ),
                None => seq![None] + days_of(offsets, zone, stamps.drop_first()),
            }
        }
    }
}

/// Remembering an hour's offset never changes a day: whatever the order of
/// the stamps, a `LocalDays` that starts out empty (or remembering only
/// offsets the zone gave) answers each stamp with the day the zone itself
/// places it on, as long as the zone's offset only changes on whole hours.
pub proof fn lemma_remembered_offsets_keep_days(
    offsets: Map<i64, i64>,
    zone: spec_fn(u32) -> Option<i64>,
    stamps: Seq<u32>,
)
    requires
        offset_is_hourly(zone),
        remembers_from(offsets, zone),
    ensures
        days_of(offsets, zone, stamps) == stamps.map_values(|s: u32| zone_day(zone, s)),
    decreases stamps.len(),
{
    if stamps.len() > 0 {
        let s = stamps[0];
        let h = hour_of(s);
        let rest = stamps.drop_first();
        let next = if offsets.contains_key(h) {
            offsets
        } else {
            match zone(s) {
                Some(o) => offsets.insert(h, o),
                None => offsets,
            }
        };
        if offsets.contains_key(h) {
            let w = choose|w: u32| hour_of(w) == h && zone(w) == Some(offsets[h]);
            assert(zone(w) == zone(s));
        } else if zone(s) is Some {
            assert forall|k: i64| #[trigger] next.contains_key(k) implies exists|w: u32|
                hour_of(w) == k && zone(w) == Some(next[k]) by {
                if k == h {
                    assert(hour_of(s) == k && zone(s) == Some(next[k]));
                } else {
                    assert(offsets.contains_key(k));
                }
            }
        }
        lemma_remembered_offsets_keep_days(next, zone, rest);
        assert(days_of(offsets, zone, stamps) =~= stamps.map_values(|s: u32| zone_day(zone, s)));
    } else {
        assert(days_of(offsets, zone, stamps) =~= stamps.map_values(|s: u32| zone_day(zone, s)));
    }
}

/// A `LocalDays` with nothing remembered remembers only what any zone gives.
pub proof fn lemma_nothing_remembered_agrees(zone: spec_fn(u32) -> Option<i64>)
    ensures
        remembers_from(Map::<i64, i64>::empty(), zone),
{
}

proof fn lemma_count_day_bound(days: Seq<Option<i32>>, d: i32)
    ensures
        count_day(days, d) <= days.len(),
        count_day(days, d) > 0 <==> exists|i: int| 0 <= i < days.len() && days[i] == Some(d),
    decreases days.len(),
{
    if days.len() > 0 {
        lemma_count_day_bound(days.drop_last(), d);
        if count_day(days.drop_last(), d) > 0 {
            let i = choose|i: int| 0 <= i < days.drop_last().len() && days.drop_last()[i] == Some(d);
            assert(days[i] == Some(d));
        }
        if exists|i: int| 0 <= i < days.len() && days[i] == Some(d) {
            let i = choose|i: int| 0 <= i < days.len() && days[i] == Some(d);
            if i < days.len() - 1 {
                assert(days.drop_last()[i] == Some(d));
            }
        }
    }
}

/// Builds the timeline from the unlock records; `days[i]` is the civil day of
/// `cache.stamps[i]`, or `None` when the time zone could not place it.
pub fn build(cache: UnlockCache, days: &Vec<Option<i32>>) -> (timeline: Timeline)
    requires
        days@.len() == cache.stamps@.len(),
        cache.stamps@.len() < u32::MAX,
    ensures
        timeline.total == cache.stamps@.len(),
        timeline.first is None <==> cache.stamps@.len() == 0,
        timeline.first matches Some(t) ==> is_earliest(cache.stamps@, t),
        timeline.per_day@ == day_histogram(days@),
        timeline.apps_per_day@.dom() == timeline.per_day@.dom(),
        forall|d: i32|
            #[trigger] timeline.apps_per_day@.contains_key(d) ==> timeline.apps_per_day@[d]@
                == games_on_day(cache.stamps@, days@, d),
        timeline.chronology@ == chronology_of(cache.stamps@, days@),
        timeline.bursts@ == bursts_of(cache.stamps@),
        timeline.cached_apps@ == cache.apps@,
        timeline.last_full_scan == cache.last_full_scan,
{
    broadcast use vstd::std_specs::hash::group_hash_axioms;

    let UnlockCache { stamps, apps: cached_apps, last_full_scan } = cache;
    let ghost st = stamps@;
    let ghost ds = days@;
    let n = stamps.len();
    let total = n;

    let mut first: Option<u32> = None;
    let mut i: usize = 0;
    while i < n
        invariant
            n == st.len(),
            st == stamps@,
            i <= n,
            first is None <==> i == 0,
            first matches Some(t) ==> {
                &&& exists|j: int| 0 <= j < i && st[j].unlock_time == t
                &&& forall|j: int| 0 <= j < i ==> t <= #[trigger] st[j].unlock_time
            },
        decreases n - i,
    {
        let t = stamps[i].unlock_time;
        first = match first {
            Some(f) => if t < f { Some(t) } else { Some(f) },
            None => Some(t),
        };
        i = i + 1;
    }

    let mut per_day: HashMap<i32, u32> = HashMap::new();
    let mut apps_per_day: HashMap<i32, HashSet<u32>> = HashMap::new();
    let mut keys: Vec<(u64, u64)> = Vec::new();
    let mut k: usize = 0;
    while k < n
        invariant
            n == st.len(),
            n < u32::MAX,
            st == stamps@,
            ds == days@,
            ds.len() == n,
            k <= n,
            per_day@ == day_histogram(ds.take(k as int)),
            apps_per_day@.dom() == per_day@.dom(),
            forall|d: i32|
                #[trigger] apps_per_day@.contains_key(d) ==> apps_per_day@[d]@ == games_on_day(
                    st,
                    ds.take(k as int),
                    d,
                ),
            keys@ == dated_keys(st, ds, k as int),
        decreases n - k,
    {
        let ghost prefix = ds.take(k as int);
        let ghost next_prefix = ds.take(k + 1);
        proof {
            assert(next_prefix.drop_last() =~= prefix);
        }
        match days[k] {
            Some(d) => {
                let app = stamps[k].app_id;
                proof {
                    lemma_count_day_bound(prefix, d);
                }
                let current: u32 = match per_day.get(&d) {
                    Some(c) => *c,
                    None => 0,
                };
                per_day.insert(d, current + 1);
                let mut games: HashSet<u32> = match apps_per_day.remove(&d) {
                    Some(g) => g,
                    None => HashSet::new(),
                };
                games.insert(app);
                apps_per_day.insert(d, games);
                keys.push((stamps[k].unlock_time as u64, k as u64));
                proof {
                    assert forall|x: i32| true implies count_day(next_prefix, x) == count_day(prefix, x)
                        + (if x == d { 1nat } else { 0nat }) by {}
                    assert(per_day@ =~= day_histogram(next_prefix)) by {
                        assert forall|x: i32| #[trigger] per_day@.contains_key(x) <==> day_histogram(
                            next_prefix,
                        ).contains_key(x) by {
                            lemma_count_day_bound(prefix, x);
                            lemma_count_day_bound(next_prefix, x);
                        }
                        assert forall|x: i32| #[trigger] per_day@.contains_key(x) implies per_day@[x]
                            == day_histogram(next_prefix)[x] by {
                            lemma_count_day_bound(prefix, x);
                            lemma_count_day_bound(next_prefix, x);
                        }
                    }
                    assert forall|x: i32| #[trigger] apps_per_day@.contains_key(x) implies apps_per_day@[x]@
                        == games_on_day(st, next_prefix, x) by {
                        if x == d {
                            assert(apps_per_day@[x]@ =~= games_on_day(st, next_prefix, x));
                        } else {
                            assert(games_on_day(st, next_prefix, x) =~= games_on_day(st, prefix, x));
                        }
                    }
                }
            },
            None => {
                proof {
                    assert forall|x: i32| true implies count_day(next_prefix, x) == count_day(prefix, x) by {}
                    assert(per_day@ =~= day_histogram(next_prefix));
                    assert forall|x: i32| #[trigger] apps_per_day@.contains_key(x) implies apps_per_day@[x]@
                        == games_on_day(st, next_prefix, x) by {
                        assert(games_on_day(st, next_prefix, x) =~= games_on_day(st, prefix, x));
                    }
                }
            },
        }
        k = k + 1;
    }
    proof {
        assert(ds.take(n as int) =~= ds);
    }

    let sorted_keys = sort_pairs(&keys);
    let ghost all_keys = dated_keys(st, ds, n as int);
    proof {
        crate::sorting::lemma_pair_leq_total();
        all_keys.lemma_sort_by_ensures(pair_leq());
        vstd::seq_lib::to_multiset_len(all_keys);
        vstd::seq_lib::to_multiset_len(sorted_keys@);
        lemma_dated_keys(st, ds, n as int);
    }
    let mut chronology: Vec<DayStamp> = Vec::new();
    let mut c: usize = 0;
    while c < sorted_keys.len()
        invariant
            n == st.len(),
            st == stamps@,
            ds == days@,
            ds.len() == n,
            sorted_keys@ == all_keys.sort_by(pair_leq()),
            sorted_keys@.to_multiset() == all_keys.to_multiset(),
            all_keys == dated_keys(st, ds, n as int),
            forall|w: int| 0 <= w < all_keys.len() ==> #[trigger] all_keys[w].1 < n && ds[all_keys[w].1 as int] is Some,
            c <= sorted_keys@.len(),
            chronology@ =~= sorted_keys@.take(c as int).map_values(
                |p: (u64, u64)| DayStamp { app_id: st[p.1 as int].app_id, day: ds[p.1 as int]->0 },
            ),
        decreases sorted_keys.len() - c,
    {
        let key = sorted_keys[c];
        proof {
            assert(sorted_keys@.contains(key));
            vstd::seq_lib::to_multiset_contains(sorted_keys@, key);
            vstd::seq_lib::to_multiset_contains(all_keys, key);
            let w = choose|w: int| 0 <= w < all_keys.len() && all_keys[w] == key;
            assert(all_keys[w].1 < n);
        }
        let at = key.1 as usize;
        let day = match days[at] {
            Some(d) => d,
            None => 0,
        };
        chronology.push(DayStamp { app_id: stamps[at].app_id, day });
        c = c + 1;
    }
    proof {
        assert(sorted_keys@.take(sorted_keys@.len() as int) =~= sorted_keys@);
    }

    let mut pairs: Vec<(u64, u64)> = Vec::new();
    let mut p: usize = 0;
    while p < n
        invariant
            n == st.len(),
            st == stamps@,
            p <= n,
            pairs@ =~= stamp_pairs(st).take(p as int),
        decreases n - p,
    {
        pairs.push((stamps[p].app_id as u64, stamps[p].unlock_time as u64));
        p = p + 1;
    }
    assert(pairs@ =~= stamp_pairs(st));
    let ordered = sort_pairs(&pairs);
    proof {
        lemma_stamp_order(st);
        assert(n < usize::MAX);
    }
    let mut bursts = find_bursts(&ordered);
    mark_clusters(&mut bursts);
    let bursts = order_newest_first(bursts);

    Timeline {
        per_day,
        apps_per_day,
        bursts,
        total,
        first,
        cached_apps,
        chronology,
        last_full_scan,
    }
}

/// Every dated key names a dated unlock.
proof fn lemma_dated_keys(stamps: Seq<UnlockStamp>, days: Seq<Option<i32>>, n: int)
    requires
        0 <= n <= days.len(),
        days.len() < u32::MAX,
    ensures
        forall|w: int|
            0 <= w < dated_keys(stamps, days, n).len() ==> #[trigger] dated_keys(stamps, days, n)[w].1
                < n && days[dated_keys(stamps, days, n)[w].1 as int] is Some,
    decreases n,
{
    if n > 0 {
        lemma_dated_keys(stamps, days, n - 1);
        let rest = dated_keys(stamps, days, n - 1);
        let all = dated_keys(stamps, days, n);
        assert forall|w: int| 0 <= w < all.len() implies #[trigger] all[w].1 < n && days[all[w].1 as int] is Some by {
            if w < rest.len() {
                assert(all[w] == rest[w]);
            } else {
                assert(all[w] == (stamps[n - 1].unlock_time as u64, (n - 1) as u64));
            }
        }
    }
}

/// Sorting the records' pairs puts them in stamp order.
proof fn lemma_stamp_order(stamps: Seq<UnlockStamp>)
    ensures
        is_stamp_order(stamp_pairs(stamps).sort_by(pair_leq())),
        stamp_pairs(stamps).sort_by(pair_leq()).len() == stamps.len(),
{
    let pairs = stamp_pairs(stamps);
    let sorted = pairs.sort_by(pair_leq());
    crate::sorting::lemma_pair_leq_total();
    pairs.lemma_sort_by_ensures(pair_leq());
    vstd::seq_lib::to_multiset_len(pairs);
    vstd::seq_lib::to_multiset_len(sorted);
    assert forall|i: int| 0 <= i < sorted.len() implies #[trigger] sorted[i].0 <= u32::MAX
        && sorted[i].1 <= u32::MAX by {
        let x = sorted[i];
        assert(sorted.contains(x));
        vstd::seq_lib::to_multiset_contains(sorted, x);
        vstd::seq_lib::to_multiset_contains(pairs, x);
        let w = choose|w: int| 0 <= w < pairs.len() && pairs[w] == x;
        assert(pairs[w] == (stamps[w].app_id as u64, stamps[w].unlock_time as u64));
    }
}

proof fn lemma_ordinary_bound(s: Seq<(u64, u64)>, i: int, e: int)
    ensures
        0 <= ordinary_from(s, i, e) <= (if e > i { e - i } else { 0 }),
    decreases e - i,
{
    if i < e {
        lemma_ordinary_bound(s, i + 1, e);
    }
}

/// What every burst found from position `i` on satisfies.
pub open spec fn is_sound_burst(b: Burst) -> bool {
    &&& b.count >= BURST_MIN
    &&& b.ordinary_later <= b.later
}

proof fn lemma_bursts_from_sound(s: Seq<(u64, u64)>, i: int)
    requires
        0 <= i,
        s.len() <= u32::MAX,
    ensures
        forall|k: int|
            0 <= k < bursts_from(s, i).len() ==> is_sound_burst(#[trigger] bursts_from(s, i)[k]),
        bursts_from(s, i).len() <= (if i < s.len() { s.len() - i } else { 0 }),
    decreases s.len() - i,
{
    if i < s.len() {
        lemma_bursts_from_sound(s, i + 1);
        if !(breaks_at(s, i) && run_end_of(s, i) - i >= BURST_MIN) {
            assert(bursts_from(s, i) == bursts_from(s, i + 1));
        } else {
            lemma_run_end(s, i);
            lemma_app_end(s, i);
            let e = run_end_of(s, i);
            let app_end = app_end_of(s, i);
            assert(e <= app_end) by {
                if app_end < e {
                    assert(!breaks_at(s, app_end));
                }
            }
            lemma_ordinary_bound(s, e, app_end);
            let head = burst_at(s, i);
            assert(is_sound_burst(head));
            let rest = bursts_from(s, i + 1);
            assert forall|k: int| 0 <= k < bursts_from(s, i).len() implies is_sound_burst(
                #[trigger] bursts_from(s, i)[k],
            ) by {
                if k > 0 {
                    assert(bursts_from(s, i)[k] == rest[k - 1]);
                }
            }
        }
    }
}

/// Every burst of the newest-first order is one of the bursts given.
proof fn lemma_newest_first_members(b: Seq<Burst>)
    requires
        b.len() <= u32::MAX,
    ensures
        newest_first(b).len() == b.len(),
        forall|j: int| 0 <= j < newest_first(b).len() ==> b.contains(#[trigger] newest_first(b)[j]),
        forall|i: int, j: int|
            0 <= i < j < newest_first(b).len() ==> #[trigger] newest_first(b)[i].start
                >= #[trigger] newest_first(b)[j].start,
{
    let keys = Seq::new(b.len(), |k: int| ((u32::MAX - b[k].start) as u64, k as u64));
    let sorted = keys.sort_by(pair_leq());
    crate::sorting::lemma_pair_leq_total();
    keys.lemma_sort_by_ensures(pair_leq());
    vstd::seq_lib::to_multiset_len(keys);
    vstd::seq_lib::to_multiset_len(sorted);
    assert forall|j: int| 0 <= j < sorted.len() implies 0 <= #[trigger] sorted[j].1 < b.len() && sorted[j]
        == keys[sorted[j].1 as int] by {
        assert(sorted.contains(sorted[j]));
        vstd::seq_lib::to_multiset_contains(sorted, sorted[j]);
        vstd::seq_lib::to_multiset_contains(keys, sorted[j]);
        let w = choose|w: int| 0 <= w < keys.len() && keys[w] == sorted[j];
        assert(sorted[j].1 == w);
    }
    assert forall|j: int| 0 <= j < newest_first(b).len() implies b.contains(
        #[trigger] newest_first(b)[j],
    ) by {
        assert(newest_first(b)[j] == b[sorted[j].1 as int]);
    }
    assert forall|i: int, j: int| 0 <= i < j < newest_first(b).len() implies #[trigger] newest_first(
        b,
    )[i].start >= #[trigger] newest_first(b)[j].start by {
        assert((pair_leq())(sorted[i], sorted[j]));
        assert(sorted[i] == keys[sorted[i].1 as int]);
        assert(sorted[j] == keys[sorted[j].1 as int]);
    }
}

/// The runs the profile page lists: each burst holds at least ten unlocks of
/// one game, never counts more ordinary unlocks after it than unlocks after
/// it, and the bursts come latest first.
pub proof fn lemma_bursts_of_shape(stamps: Seq<UnlockStamp>)
    requires
        stamps.len() <= u32::MAX,
    ensures
        forall|k: int| 0 <= k < bursts_of(stamps).len() ==> is_sound_burst(#[trigger] bursts_of(stamps)[k]),
        forall|i: int, j: int|
            0 <= i < j < bursts_of(stamps).len() ==> #[trigger] bursts_of(stamps)[i].start
                >= #[trigger] bursts_of(stamps)[j].start,
{
    let s = stamp_pairs(stamps).sort_by(pair_leq());
    crate::sorting::lemma_pair_leq_total();
    stamp_pairs(stamps).lemma_sort_by_ensures(pair_leq());
    vstd::seq_lib::to_multiset_len(stamp_pairs(stamps));
    vstd::seq_lib::to_multiset_len(s);
    lemma_bursts_from_sound(s, 0);
    let found = bursts_from(s, 0);
    let marked = with_clusters(found);
    assert forall|k: int| 0 <= k < marked.len() implies is_sound_burst(#[trigger] marked[k]) by {
        assert(is_sound_burst(found[k]));
    }
    lemma_newest_first_members(marked);
    assert forall|k: int| 0 <= k < bursts_of(stamps).len() implies is_sound_burst(
        #[trigger] bursts_of(stamps)[k],
    ) by {
        assert(marked.contains(newest_first(marked)[k]));
        let w = choose|w: int| 0 <= w < marked.len() && marked[w] == newest_first(marked)[k];
        assert(is_sound_burst(marked[w]));
    }
}

} // verus!
