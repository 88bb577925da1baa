//! The profile page's figures: the library totals, and how each run of
//! unlocks that stands out is read and ranked.
use vstd::prelude::*;
use std::collections::{HashMap, HashSet};
use crate::library::AppRecord;
use crate::sorting::{pair_leq, sort_pairs};
use crate::timeline::{Burst, DayStamp};

verus! {

broadcast use vstd::std_specs::hash::group_hash_axioms;

/// Playtime below which a run has nothing behind it.
pub const UNPLAYED_MINUTES: u32 = 30;

/// The most runs listed; the rest are summed up in one line.
pub const BURSTS_MAX_ROWS: usize = 25;

/// How a run of unlocks reads, from the most telling down.
#[derive(Clone, Copy, Debug, PartialEq, Eq)]
pub enum Reading {
    /// Several games, one after another, in one sitting.
    SeveralGames,
    /// A game barely played.
    NeverPlayed,
    /// Nothing else was ever unlocked in the game.
    WholeGame,
    /// Other unlocks of the game came at other times.
    MidHistory,
    /// At the start of the game's history, with ordinary unlocks after it.
    CouldBeBackfill,
}

/// The place of a reading in the ranking.
pub open spec fn reading_rank(r: Reading) -> u64 {
    match r {
        Reading::SeveralGames => 0,
        Reading::NeverPlayed => 1,
        Reading::WholeGame => 2,
        Reading::MidHistory => 3,
        Reading::CouldBeBackfill => 4,
    }
}

/// How a burst reads, given the playtime of its game when the library has it.
pub open spec fn reads_as_spec(burst: Burst, playtime: Option<u32>) -> Reading {
    if burst.cluster_apps > 1 {
        Reading::SeveralGames
    } else if playtime matches Some(m) && m < UNPLAYED_MINUTES {
        Reading::NeverPlayed
    } else if burst.earlier == 0 && burst.later == 0 {
        Reading::WholeGame
    } else if burst.earlier == 0 && burst.ordinary_later >= 1 {
        Reading::CouldBeBackfill
    } else {
        Reading::MidHistory
    }
}

/// How `burst` reads; `playtime` is its game's playtime in minutes, `None`
/// when the game is not in the library.
pub fn reads_as(burst: &Burst, playtime: Option<u32>) -> (r: Reading)
    ensures
        r == reads_as_spec(*burst, playtime),
{
    if burst.cluster_apps > 1 {
        return Reading::SeveralGames;
    }
    match playtime {
        Some(m) => {
            if m < UNPLAYED_MINUTES {
                return Reading::NeverPlayed;
            }
        },
        None => {},
    }
    if burst.earlier == 0 && burst.later == 0 {
        Reading::WholeGame
    } else if burst.earlier == 0 && burst.ordinary_later >= 1 {
        Reading::CouldBeBackfill
    } else {
        Reading::MidHistory
    }
}

/// One line of the list of runs: a sitting across several games, or a single
/// game's run with its reading.
pub enum Row {
    Sitting { start: u32, games: usize, count: usize, apps: Vec<u32> },
    Single(Reading, Burst),
}

/// A line of the list, as values.
pub enum RowView {
    Sitting { start: u32, games: usize, count: usize, apps: Seq<u32> },
    Single(Reading, Burst),
}

impl View for Row {
    type V = RowView;

    open spec fn view(&self) -> RowView {
        match self {
            Row::Sitting { start, games, count, apps } => RowView::Sitting {
                start: *start,
                games: *games,
                count: *count,
                apps: apps@,
            },
            Row::Single(r, b) => RowView::Single(*r, *b),
        }
    }
}

/// The playtime of `app_id`, when the library has the game.
pub open spec fn playtime_of(playtimes: Map<u32, u32>, app_id: u32) -> Option<u32> {
    if playtimes.contains_key(app_id) {
        Some(playtimes[app_id])
    } else {
        None
    }
}

/// A sitting being gathered: its cluster, first start, games, unlocks and
/// the games in order of their first run.
pub type Gathering = (usize, u32, usize, int, Seq<u32>);

/// Where the sitting of `cluster` is among `sittings`.
pub open spec fn sitting_index(sittings: Seq<Gathering>, cluster: usize) -> Option<int>
    decreases sittings.len(),
{
    if sittings.len() == 0 {
        None
    } else if sittings.last().0 == cluster {
        Some(sittings.len() - 1)
    } else {
        sitting_index(sittings.drop_last(), cluster)
    }
}

/// `g` with the run `b` added.
pub open spec fn gather(g: Gathering, b: Burst) -> Gathering {
    (
        g.0,
        if b.start < g.1 {
            b.start
        } else {
            g.1
        },
        g.2,
        g.3 + b.count,
        if g.4.contains(b.app_id) {
            g.4
        } else {
            g.4.push(b.app_id)
        },
    )
}

/// The single runs and the sittings of the first `n` bursts, in the order
/// they were met.
pub open spec fn rows_upto(bursts: Seq<Burst>, playtimes: Map<u32, u32>, n: int) -> (
    Seq<RowView>,
    Seq<Gathering>,
)
    decreases n,
{
    if n <= 0 {
        (Seq::empty(), Seq::empty())
    } else {
        let (singles, sittings) = rows_upto(bursts, playtimes, n - 1);
        let b = bursts[n - 1];
        if b.cluster_apps < 2 {
            (
                singles.push(
                    RowView::Single(reads_as_spec(b, playtime_of(playtimes, b.app_id)), b),
                ),
                sittings,
            )
        } else {
            match sitting_index(sittings, b.cluster) {
                Some(k) => (singles, sittings.update(k, gather(sittings[k], b))),
                None => (
                    singles,
                    sittings.push(gather((b.cluster, b.start, b.cluster_apps, 0, Seq::empty()), b)),
                ),
            }
        }
    }
}

/// A finished sitting as a line.
pub open spec fn sitting_row(g: Gathering) -> RowView {
    RowView::Sitting { start: g.1, games: g.2, count: g.3 as usize, apps: g.4 }
}

/// The lines before ranking: the single runs in burst order, then the sittings.
pub open spec fn unranked_rows(bursts: Seq<Burst>, playtimes: Map<u32, u32>) -> Seq<RowView> {
    let (singles, sittings) = rows_upto(bursts, playtimes, bursts.len() as int);
    singles + sittings.map_values(|g: Gathering| sitting_row(g))
}

/// The rank of a line: by reading, then latest first.
pub open spec fn rank_key(row: RowView) -> u64 {
    match row {
        RowView::Sitting { start, .. } => (u32::MAX - start) as u64,
        RowView::Single(r, b) => (reading_rank(r) * 0x1_0000_0000 + (u32::MAX - b.start)) as u64,
    }
}

/// The lines ranked by reading, then latest first; lines that rank the same
/// keep their order.
pub open spec fn ranked_rows(rows: Seq<RowView>) -> Seq<RowView> {
    Seq::new(rows.len(), |k: int| (rank_key(rows[k]), k as u64)).sort_by(pair_leq()).map_values(
        |p: (u64, u64)| rows[p.1 as int],
    )
}

/// The ranked list holds the same lines, most telling reading first and,
/// within a reading, the latest first.
pub proof fn lemma_ranked_rows_ordered(rows: Seq<RowView>)
    requires
        rows.len() <= u32::MAX,
    ensures
        ranked_rows(rows).len() == rows.len(),
        forall|j: int| 0 <= j < ranked_rows(rows).len() ==> rows.contains(#[trigger] ranked_rows(rows)[j]),
        forall|i: int, j: int|
            0 <= i < j < ranked_rows(rows).len() ==> rank_key(#[trigger] ranked_rows(rows)[i])
                <= rank_key(#[trigger] ranked_rows(rows)[j]),
{
    let keys = Seq::new(rows.len(), |k: int| (rank_key(rows[k]), k as u64));
    let sorted = keys.sort_by(pair_leq());
    crate::sorting::lemma_pair_leq_total();
    keys.lemma_sort_by_ensures(pair_leq());
    vstd::seq_lib::to_multiset_len(keys);
    vstd::seq_lib::to_multiset_len(sorted);
    assert forall|j: int| 0 <= j < sorted.len() implies 0 <= #[trigger] sorted[j].1 < rows.len() && sorted[j]
        == keys[sorted[j].1 as int] by {
        assert(sorted.contains(sorted[j]));
        vstd::seq_lib::to_multiset_contains(sorted, sorted[j]);
        vstd::seq_lib::to_multiset_contains(keys, sorted[j]);
        let w = choose|w: int| 0 <= w < keys.len() && keys[w] == sorted[j];
        assert(sorted[j].1 == w);
    }
    assert forall|j: int| 0 <= j < ranked_rows(rows).len() implies rows.contains(
        #[trigger] ranked_rows(rows)[j],
    ) by {
        assert(ranked_rows(rows)[j] == rows[sorted[j].1 as int]);
    }
    assert forall|i: int, j: int| 0 <= i < j < ranked_rows(rows).len() implies rank_key(
        #[trigger] ranked_rows(rows)[i],
    ) <= rank_key(#[trigger] ranked_rows(rows)[j]) by {
        assert((pair_leq())(sorted[i], sorted[j]));
        assert(sorted[i] == keys[sorted[i].1 as int]);
        assert(sorted[j] == keys[sorted[j].1 as int]);
    }
}

/// The total of the unlocks in `bursts`.
pub open spec fn unlocks_in(bursts: Seq<Burst>) -> int
    decreases bursts.len(),
{
    if bursts.len() == 0 {
        0
    } else {
        unlocks_in(bursts.drop_last()) + bursts.last().count
    }
}

proof fn lemma_unlocks_in_prefix(bursts: Seq<Burst>, n: int)
    requires
        0 <= n < bursts.len(),
    ensures
        unlocks_in(bursts.take(n + 1)) == unlocks_in(bursts.take(n)) + bursts[n].count,
        unlocks_in(bursts.take(n)) <= unlocks_in(bursts.take(n + 1)),
{
    assert(bursts.take(n + 1).drop_last() =~= bursts.take(n));
}

proof fn lemma_unlocks_in_grows(bursts: Seq<Burst>, n: int, m: int)
    requires
        0 <= n <= m <= bursts.len(),
    ensures
        unlocks_in(bursts.take(n)) <= unlocks_in(bursts.take(m)),
    decreases m - n,
{
    if n < m {
        lemma_unlocks_in_grows(bursts, n, m - 1);
        lemma_unlocks_in_prefix(bursts, m - 1);
    }
}

proof fn lemma_unlocks_in_nonneg(bursts: Seq<Burst>)
    ensures
        unlocks_in(bursts) >= 0,
    decreases bursts.len(),
{
    if bursts.len() > 0 {
        lemma_unlocks_in_nonneg(bursts.drop_last());
    }
}

proof fn lemma_sitting_index_bounds(sittings: Seq<Gathering>, cluster: usize)
    ensures
        sitting_index(sittings, cluster) matches Some(k) ==> 0 <= k < sittings.len() && sittings[k].0
            == cluster,
    decreases sittings.len(),
{
    if sittings.len() > 0 {
        lemma_sitting_index_bounds(sittings.drop_last(), cluster);
    }
}

proof fn lemma_gathering_counts(b: Seq<Burst>, pt: Map<u32, u32>, n: int)
    requires
        0 <= n <= b.len(),
    ensures
        forall|k: int|
            0 <= k < rows_upto(b, pt, n).1.len() ==> #[trigger] rows_upto(b, pt, n).1[k].3 <= unlocks_in(
                b.take(n),
            ),
    decreases n,
{
    if n > 0 {
        lemma_gathering_counts(b, pt, n - 1);
        lemma_unlocks_in_prefix(b, n - 1);
        let prev = rows_upto(b, pt, n - 1).1;
        let cur = rows_upto(b, pt, n).1;
        lemma_unlocks_in_nonneg(b.take(n - 1));
        let burst = b[n - 1];
        lemma_sitting_index_bounds(prev, burst.cluster);
        assert forall|k: int| 0 <= k < cur.len() implies #[trigger] cur[k].3 <= unlocks_in(b.take(n)) by {
            if k < prev.len() {
                assert(prev[k].3 <= unlocks_in(b.take(n - 1)));
            }
        }
    }
}

/// A sitting being gathered, as the loop holds it.
struct Gathered {
    cluster: usize,
    start: u32,
    games: usize,
    count: usize,
    apps: Vec<u32>,
}

impl Gathered {
    spec fn value(&self) -> Gathering {
        (self.cluster, self.start, self.games, self.count as int, self.apps@)
    }
}

/// Whether `id` is in `ids`.
fn holds(ids: &Vec<u32>, id: u32) -> (r: bool)
    ensures
        r == ids@.contains(id),
{
    let mut i: usize = 0;
    while i < ids.len()
        invariant
            i <= ids@.len(),
            forall|k: int| 0 <= k < i ==> ids@[k] != id,
        decreases ids.len() - i,
    {
        if ids[i] == id {
            return true;
        }
        i = i + 1;
    }
    false
}

/// Where the sitting of `cluster` is, searching from the last one.
fn find_sitting(sittings: &Vec<Gathered>, cluster: usize) -> (r: Option<usize>)
    ensures
        r matches Some(k) ==> k < sittings@.len(),
        (match r {
            Some(k) => Some(k as int),
            None => None,
        }) == sitting_index(sittings@.map_values(|g: Gathered| g.value()), cluster),
{
    let ghost vals = sittings@.map_values(|g: Gathered| g.value());
    assert(vals.take(vals.len() as int) =~= vals);
    let mut j: usize = sittings.len();
    while j > 0
        invariant
            j <= sittings@.len(),
            vals == sittings@.map_values(|g: Gathered| g.value()),
            sitting_index(vals, cluster) == sitting_index(vals.take(j as int), cluster),
        decreases j,
    {
        proof {
            assert(vals.take(j as int).drop_last() =~= vals.take(j - 1));
        }
        if sittings[j - 1].cluster == cluster {
            return Some(j - 1);
        }
        j = j - 1;
    }
    None
}

/// A copy of `r`.
fn copy_row(r: &Row) -> (out: Row)
    ensures
        out@ == r@,
{
    match r {
        Row::Sitting { start, games, count, apps } => {
            let copied = apps.clone();
            assert(copied@ =~= apps@);
            Row::Sitting { start: *start, games: *games, count: *count, apps: copied }
        },
        Row::Single(reading, burst) => Row::Single(*reading, *burst),
    }
}

/// The lines of the list of runs, ranked: a run in one game is a line of its
/// own; the runs of a sitting across games make one line, starting at its
/// first run, with its unlocks summed and its games in order of their first
/// run. `playtimes` holds the playtime of each game of the library.
pub fn rows_for(bursts: &Vec<Burst>, playtimes: &HashMap<u32, u32>) -> (rows: Vec<Row>)
    requires
        unlocks_in(bursts@) <= usize::MAX,
    ensures
        rows@.map_values(|r: Row| r@) == ranked_rows(unranked_rows(bursts@, playtimes@)),
{
    let ghost b = bursts@;
    let ghost pt = playtimes@;
    let n = bursts.len();
    let mut singles: Vec<Row> = Vec::new();
    let mut sittings: Vec<Gathered> = Vec::new();
    let mut i: usize = 0;
    while i < n
        invariant
            n == b.len(),
            b == bursts@,
            pt == playtimes@,
            i <= n,
            unlocks_in(b) <= usize::MAX,
            singles@.map_values(|r: Row| r@) == rows_upto(b, pt, i as int).0,
            sittings@.map_values(|g: Gathered| g.value()) == rows_upto(b, pt, i as int).1,
        decreases n - i,
    {
        let burst = bursts[i];
        proof {
            lemma_unlocks_in_prefix(b, i as int);
            lemma_unlocks_in_grows(b, i + 1, n as int);
            assert(b.take(n as int) =~= b);
            lemma_gathering_counts(b, pt, i as int);
        }
        if burst.cluster_apps < 2 {
            let playtime = match playtimes.get(&burst.app_id) {
                Some(m) => Some(*m),
                None => None,
            };
            let reading = reads_as(&burst, playtime);
            singles.push(Row::Single(reading, burst));
            proof {
                assert(singles@.map_values(|r: Row| r@) =~= rows_upto(b, pt, i + 1).0);
            }
        } else {
            match find_sitting(&sittings, burst.cluster) {
                Some(k) => {
                    let ghost before = sittings@.map_values(|g: Gathered| g.value());
                    assert(before[k as int].3 <= unlocks_in(b.take(i as int)));
                    let mut g = sittings.remove(k);
                    if burst.start < g.start {
                        g.start = burst.start;
                    }
                    g.count = g.count + burst.count;
                    if !holds(&g.apps, burst.app_id) {
                        g.apps.push(burst.app_id);
                    }
                    sittings.insert(k, g);
                    proof {
                        assert(sittings@.map_values(|g: Gathered| g.value()) =~= before.update(
                            k as int,
                            gather(before[k as int], burst),
                        ));
                    }
                },
                None => {
                    let mut apps: Vec<u32> = Vec::new();
                    apps.push(burst.app_id);
                    sittings.push(
                        Gathered {
                            cluster: burst.cluster,
                            start: burst.start,
                            games: burst.cluster_apps,
                            count: burst.count,
                            apps,
                        },
                    );
                    proof {
                        assert(Seq::<u32>::empty().push(burst.app_id) =~= apps@);
                        assert(sittings@.map_values(|g: Gathered| g.value()) =~= rows_upto(
                            b,
                            pt,
                            i + 1,
                        ).1);
                    }
                },
            }
        }
        i = i + 1;
    }
    let ghost unranked = unranked_rows(b, pt);
    let mut all: Vec<Row> = singles;
    let mut k: usize = 0;
    while k < sittings.len()
        invariant
            k <= sittings@.len(),
            all@.map_values(|r: Row| r@) == rows_upto(b, pt, n as int).0 + sittings@.map_values(
                |g: Gathered| sitting_row(g.value()),
            ).take(k as int),
        decreases sittings.len() - k,
    {
        let g = &sittings[k];
        let copied = g.apps.clone();
        assert(copied@ =~= g.apps@);
        let ghost prev = all@.map_values(|r: Row| r@);
        let row = Row::Sitting { start: g.start, games: g.games, count: g.count, apps: copied };
        assert(row@ == sitting_row(sittings@[k as int].value()));
        all.push(row);
        proof {
            assert(all@.map_values(|r: Row| r@) =~= prev.push(row@));
            assert(sittings@.map_values(|g: Gathered| sitting_row(g.value())).take(k + 1)
                =~= sittings@.map_values(|g: Gathered| sitting_row(g.value())).take(k as int).push(
                sitting_row(sittings@[k as int].value()),
            ));
            assert(all@.map_values(|r: Row| r@) =~= rows_upto(b, pt, n as int).0 + sittings@.map_values(
                |g: Gathered| sitting_row(g.value()),
            ).take(k + 1));
        }
        k = k + 1;
    }
    proof {
        assert(sittings@.map_values(|g: Gathered| sitting_row(g.value())).take(sittings@.len() as int)
            =~= rows_upto(b, pt, n as int).1.map_values(|g: Gathering| sitting_row(g)));
        assert(all@.map_values(|r: Row| r@) =~= unranked);
    }
    let m = all.len();
    let mut keys: Vec<(u64, u64)> = Vec::new();
    let mut j: usize = 0;
    while j < m
        invariant
            m == all@.len(),
            j <= m,
            all@.map_values(|r: Row| r@) == unranked,
            keys@ =~= Seq::new(unranked.len(), |x: int| (rank_key(unranked[x]), x as u64)).take(
                j as int,
            ),
        decreases m - j,
    {
        let key: u64 = match &all[j] {
            Row::Sitting { start, .. } => (u32::MAX - *start) as u64,
            Row::Single(reading, burst) => {
                let rank: u64 = match reading {
                    Reading::SeveralGames => 0,
                    Reading::NeverPlayed => 1,
                    Reading::WholeGame => 2,
                    Reading::MidHistory => 3,
                    Reading::CouldBeBackfill => 4,
                };
                rank * 0x1_0000_0000 + (u32::MAX - burst.start) as u64
            },
        };
        proof {
            assert(unranked[j as int] == all@[j as int]@);
        }
        keys.push((key, j as u64));
        j = j + 1;
    }
    let ghost all_keys = Seq::new(unranked.len(), |x: int| (rank_key(unranked[x]), x as u64));
    assert(keys@ =~= all_keys);
    let sorted = sort_pairs(&keys);
    proof {
        crate::sorting::lemma_pair_leq_total();
        all_keys.lemma_sort_by_ensures(pair_leq());
        vstd::seq_lib::to_multiset_len(all_keys);
        vstd::seq_lib::to_multiset_len(sorted@);
    }
    let mut out: Vec<Row> = Vec::new();
    let mut q: usize = 0;
    while q < sorted.len()
        invariant
            m == all@.len(),
            all@.map_values(|r: Row| r@) == unranked,
            sorted@ == all_keys.sort_by(pair_leq()),
            sorted@.to_multiset() == all_keys.to_multiset(),
            all_keys == Seq::new(unranked.len(), |x: int| (rank_key(unranked[x]), x as u64)),
            q <= sorted@.len(),
            out@.map_values(|r: Row| r@) =~= sorted@.take(q as int).map_values(
                |p: (u64, u64)| unranked[p.1 as int],
            ),
        decreases sorted.len() - q,
    {
        let key = sorted[q];
        proof {
            assert(sorted@.contains(key));
            vstd::seq_lib::to_multiset_contains(sorted@, key);
            vstd::seq_lib::to_multiset_contains(all_keys, key);
            let w = choose|w: int| 0 <= w < all_keys.len() && all_keys[w] == key;
            assert(key.1 == w);
        }
        let ghost prev = out@.map_values(|r: Row| r@);
        let row = copy_row(&all[key.1 as usize]);
        assert(row@ == unranked[key.1 as int]);
        out.push(row);
        proof {
            assert(out@.map_values(|r: Row| r@) =~= prev.push(row@));
            assert(sorted@.take(q + 1) =~= sorted@.take(q as int).push(key));
            assert(out@.map_values(|r: Row| r@) =~= sorted@.take(q + 1).map_values(
                |p: (u64, u64)| unranked[p.1 as int],
            ));
        }
        q = q + 1;
    }
    assert(sorted@.take(sorted@.len() as int) =~= sorted@);
    out
}

/// The library's totals over the games the grid shows: neither the search
/// placeholder nor junk counts. `started` counts the games with achievements
/// of which at least one is unlocked.
#[derive(Clone, Copy, Debug, PartialEq, Eq)]
pub struct LibraryStats {
    pub apps: u32,
    pub measured: u32,
    pub unlocked: u64,
    pub total: u64,
    pub perfect: u32,
    pub playtime_minutes: u64,
    pub started: u32,
}

/// Whether a game counts towards the library's totals.
pub open spec fn in_library(app: AppRecord) -> bool {
    !app.is_synthetic && !app.is_junk
}

/// The totals over the first `n` games, as integers.
pub open spec fn stats_upto(apps: Seq<AppRecord>, n: int) -> (int, int, int, int, int, int, int)
    decreases n,
{
    if n <= 0 {
        (0, 0, 0, 0, 0, 0, 0)
    } else {
        let s = stats_upto(apps, n - 1);
        let app = apps[n - 1];
        if !in_library(app) {
            s
        } else if !app.achievements_loaded {
            (s.0 + 1, s.1, s.2, s.3, s.4, s.5 + app.playtime_minutes, s.6)
        } else {
            let total = app.achievement_count;
            let unlocked = app.unlocked_achievement_count;
            (
                s.0 + 1,
                s.1 + 1,
                s.2 + unlocked,
                s.3 + total,
                s.4 + (if total > 0 && unlocked >= total { 1int } else { 0 }),
                s.5 + app.playtime_minutes,
                s.6 + (if total > 0 && unlocked > 0 { 1int } else { 0 }),
            )
        }
    }
}

proof fn lemma_stats_bounds(apps: Seq<AppRecord>, n: int)
    requires
        0 <= n <= apps.len(),
    ensures
        ({
            let s = stats_upto(apps, n);
            &&& 0 <= s.1 <= s.0 <= n
            &&& 0 <= s.4 <= s.1
            &&& 0 <= s.6 <= s.1
            &&& 0 <= s.2 <= n * u32::MAX
            &&& 0 <= s.3 <= n * u32::MAX
            &&& 0 <= s.5 <= n * u32::MAX
        }),
    decreases n,
{
    if n > 0 {
        lemma_stats_bounds(apps, n - 1);
    }
}

/// The library's totals.
pub fn collect_stats(apps: &Vec<AppRecord>) -> (stats: LibraryStats)
    requires
        apps@.len() <= u32::MAX,
    ensures
        ({
            let s = stats_upto(apps@, apps@.len() as int);
            &&& stats.apps == s.0
            &&& stats.measured == s.1
            &&& stats.unlocked == s.2
            &&& stats.total == s.3
            &&& stats.perfect == s.4
            &&& stats.playtime_minutes == s.5
            &&& stats.started == s.6
        }),
{
    let mut stats = LibraryStats {
        apps: 0,
        measured: 0,
        unlocked: 0,
        total: 0,
        perfect: 0,
        playtime_minutes: 0,
        started: 0,
    };
    let mut i: usize = 0;
    while i < apps.len()
        invariant
            i <= apps@.len(),
            apps@.len() <= u32::MAX,
            ({
                let s = stats_upto(apps@, i as int);
                &&& stats.apps == s.0
                &&& stats.measured == s.1
                &&& stats.unlocked == s.2
                &&& stats.total == s.3
                &&& stats.perfect == s.4
                &&& stats.playtime_minutes == s.5
                &&& stats.started == s.6
            }),
        decreases apps.len() - i,
    {
        proof {
            lemma_stats_bounds(apps@, i as int);
            assert(i * u32::MAX + u32::MAX <= u32::MAX * u32::MAX) by (nonlinear_arith)
                requires
                    i < u32::MAX,
            ;
        }
        let app = &apps[i];
        if !app.is_synthetic && !app.is_junk {
            stats.apps = stats.apps + 1;
            stats.playtime_minutes = stats.playtime_minutes + app.playtime_minutes as u64;
            if app.achievements_loaded {
                stats.measured = stats.measured + 1;
                let total = app.achievement_count;
                let unlocked = app.unlocked_achievement_count;
                stats.total = stats.total + total as u64;
                stats.unlocked = stats.unlocked + unlocked as u64;
                if total > 0 && unlocked >= total {
                    stats.perfect = stats.perfect + 1;
                }
                if total > 0 && unlocked > 0 {
                    stats.started = stats.started + 1;
                }
            }
        }
        i = i + 1;
    }
    stats
}

/// The completion fraction a started game adds to the library's average:
/// unlocked (at most the total) over total, for a game of the library that
/// was read, has achievements and has at least one unlocked.
pub open spec fn started_fraction(app: AppRecord) -> Option<(u32, u32)> {
    if in_library(app) && app.achievements_loaded && app.achievement_count > 0
        && app.unlocked_achievement_count > 0 {
        Some(
            (
                if app.unlocked_achievement_count < app.achievement_count {
                    app.unlocked_achievement_count
                } else {
                    app.achievement_count
                },
                app.achievement_count,
            ),
        )
    } else {
        None
    }
}

/// The fractions of the started games among the first `n`, in list order.
pub open spec fn started_upto(apps: Seq<AppRecord>, n: int) -> Seq<(u32, u32)>
    decreases n,
{
    if n <= 0 {
        Seq::empty()
    } else {
        match started_fraction(apps[n - 1]) {
            Some(f) => started_upto(apps, n - 1).push(f),
            None => started_upto(apps, n - 1),
        }
    }
}

proof fn lemma_started_upto_counts(apps: Seq<AppRecord>, n: int)
    requires
        0 <= n <= apps.len(),
    ensures
        started_upto(apps, n).len() == stats_upto(apps, n).6,
    decreases n,
{
    if n > 0 {
        lemma_started_upto_counts(apps, n - 1);
    }
}

/// The completion fraction of each started game, in list order, each as
/// (unlocked, total) with the unlocked capped at the total: the average
/// completion weighs every one of them the same. There are as many as
/// `collect_stats` counts started games.
pub fn started_fractions(apps: &Vec<AppRecord>) -> (fractions: Vec<(u32, u32)>)
    ensures
        fractions@ == started_upto(apps@, apps@.len() as int),
        fractions@.len() == stats_upto(apps@, apps@.len() as int).6,
{
    let mut fractions: Vec<(u32, u32)> = Vec::new();
    let mut i: usize = 0;
    while i < apps.len()
        invariant
            i <= apps@.len(),
            fractions@ == started_upto(apps@, i as int),
        decreases apps.len() - i,
    {
        let app = &apps[i];
        if !app.is_synthetic && !app.is_junk && app.achievements_loaded && app.achievement_count > 0
            && app.unlocked_achievement_count > 0 {
            let unlocked = if app.unlocked_achievement_count < app.achievement_count {
                app.unlocked_achievement_count
            } else {
                app.achievement_count
            };
            fractions.push((unlocked, app.achievement_count));
        }
        i = i + 1;
    }
    proof {
        lemma_started_upto_counts(apps@, apps@.len() as int);
    }
    fractions
}

/// Games with achievements whose unlock records are missing from Steam's
/// files, counted only once every game of the library has been read (zero
/// until then) over the first `n` games; `None` once one is found unread.
pub open spec fn missing_upto(apps: Seq<AppRecord>, cached: Set<u32>, n: int) -> Option<int>
    decreases n,
{
    if n <= 0 {
        Some(0)
    } else {
        match missing_upto(apps, cached, n - 1) {
            None => None,
            Some(m) => {
                let app = apps[n - 1];
                if !in_library(app) {
                    Some(m)
                } else if !app.achievements_loaded {
                    None
                } else if app.achievement_count > 0 && !cached.contains(app.app_id) {
                    Some(m + 1)
                } else {
                    Some(m)
                }
            },
        }
    }
}

proof fn lemma_missing_bounds(apps: Seq<AppRecord>, cached: Set<u32>, n: int)
    requires
        0 <= n,
    ensures
        missing_upto(apps, cached, n) matches Some(m) ==> 0 <= m <= n,
    decreases n,
{
    if n > 0 {
        lemma_missing_bounds(apps, cached, n - 1);
    }
}

/// The games whose unlock records Steam's files lack: only ever a file deleted
/// since Steam last started. Zero until every game has been read.
pub fn missing_from_cache(apps: &Vec<AppRecord>, cached: &HashSet<u32>) -> (missing: u32)
    requires
        apps@.len() <= u32::MAX,
    ensures
        missing == (match missing_upto(apps@, cached@, apps@.len() as int) {
            Some(m) => m,
            None => 0,
        }),
{
    let mut missing: u32 = 0;
    let mut i: usize = 0;
    while i < apps.len()
        invariant
            i <= apps@.len(),
            apps@.len() <= u32::MAX,
            missing_upto(apps@, cached@, i as int) == Some(missing as int),
        decreases apps.len() - i,
    {
        proof {
            lemma_missing_bounds(apps@, cached@, i as int);
        }
        let app = &apps[i];
        if !app.is_synthetic && !app.is_junk {
            if !app.achievements_loaded {
                proof {
                    lemma_missing_stays_unknown(apps@, cached@, i + 1, apps@.len() as int);
                }
                return 0;
            }
            if app.achievement_count > 0 && !cached.contains(&app.app_id) {
                missing = missing + 1;
            }
        }
        i = i + 1;
    }
    missing
}

proof fn lemma_missing_stays_unknown(apps: Seq<AppRecord>, cached: Set<u32>, n: int, m: int)
    requires
        n <= m,
        missing_upto(apps, cached, n) is None,
    ensures
        missing_upto(apps, cached, m) is None,
    decreases m - n,
{
    if n < m {
        lemma_missing_stays_unknown(apps, cached, n, m - 1);
    }
}

/// What a tile of the profile page shows.
#[derive(Clone, Copy, Debug, PartialEq, Eq)]
pub enum TileFace {
    /// The figure.
    Value,
    /// A spinner: the counts are being read.
    Loading,
    /// A mark that the figure is not known yet.
    Unknown,
}

/// A tile summed over per-app counts shows nothing until every game has been
/// read: half a library does not average out to a smaller truth.
pub open spec fn tile_face_of(needs_counts: bool, complete: bool, loading: bool) -> TileFace {
    if !needs_counts || complete {
        TileFace::Value
    } else if loading {
        TileFace::Loading
    } else {
        TileFace::Unknown
    }
}

/// What a tile shows.
pub fn tile_face(needs_counts: bool, stats: &LibraryStats, loading: bool) -> (face: TileFace)
    ensures
        face == tile_face_of(needs_counts, stats.measured >= stats.apps, loading),
{
    let complete = stats.measured >= stats.apps;
    if !needs_counts || complete {
        TileFace::Value
    } else if loading {
        TileFace::Loading
    } else {
        TileFace::Unknown
    }
}

/// Of `rows` lines, how many are listed and how many are left to the "more"
/// line.
pub fn rows_shown(rows: usize) -> (split: (usize, usize))
    ensures
        split.0 == (if rows < BURSTS_MAX_ROWS { rows } else { BURSTS_MAX_ROWS }),
        split.0 + split.1 == rows,
{
    let shown = if rows < BURSTS_MAX_ROWS { rows } else { BURSTS_MAX_ROWS };
    (shown, rows - shown)
}

/// One unlock's step along the completion curve: its day, its game's number
/// of achievements, whether it adds to the game's completion (a schema that
/// lost achievements can leave more unlocks than it has), the games started
/// so far, and whether it opens the day's point (else it moves that point).
#[derive(Clone, Copy, Debug, PartialEq, Eq)]
pub struct CurveStep {
    pub day: i32,
    pub total: u32,
    pub counted: bool,
    pub started: u32,
    pub new_point: bool,
}

/// The curve's state after the first `n` unlocks in time order: unlocks
/// counted per game, games started, and the steps so far. Only games whose
/// number of achievements is known and not zero are averaged in.
pub open spec fn curve_upto(chronology: Seq<DayStamp>, totals: Map<u32, u32>, n: int) -> (
    Map<u32, u32>,
    int,
    Seq<CurveStep>,
)
    decreases n,
{
    if n <= 0 {
        (Map::empty(), 0, Seq::empty())
    } else {
        let (unlocked, started, steps) = curve_upto(chronology, totals, n - 1);
        let stamp = chronology[n - 1];
        if !(totals.contains_key(stamp.app_id) && totals[stamp.app_id] > 0) {
            (unlocked, started, steps)
        } else {
            let total = totals[stamp.app_id];
            let count = if unlocked.contains_key(stamp.app_id) {
                unlocked[stamp.app_id]
            } else {
                0
            };
            let now_started = if count == 0 {
                started + 1
            } else {
                started
            };
            let counted = count < total;
            (
                unlocked.insert(stamp.app_id, if counted { (count + 1) as u32 } else { count }),
                now_started,
                steps.push(
                    CurveStep {
                        day: stamp.day,
                        total,
                        counted,
                        started: now_started as u32,
                        new_point: steps.len() == 0 || steps.last().day != stamp.day,
                    },
                ),
            )
        }
    }
}

proof fn lemma_curve_started_bound(chronology: Seq<DayStamp>, totals: Map<u32, u32>, n: int)
    requires
        0 <= n,
    ensures
        0 <= curve_upto(chronology, totals, n).1 <= n,
    decreases n,
{
    if n > 0 {
        lemma_curve_started_bound(chronology, totals, n - 1);
    }
}

/// The steps of the completion curve over the unlocks in time order, with
/// `totals` the number of achievements of each game read.
pub fn completion_steps(chronology: &Vec<DayStamp>, totals: &HashMap<u32, u32>) -> (steps: Vec<CurveStep>)
    requires
        chronology@.len() <= u32::MAX,
    ensures
        steps@ == curve_upto(chronology@, totals@, chronology@.len() as int).2,
{
    let mut unlocked: HashMap<u32, u32> = HashMap::new();
    let mut started: u32 = 0;
    let mut steps: Vec<CurveStep> = Vec::new();
    let mut i: usize = 0;
    while i < chronology.len()
        invariant
            i <= chronology@.len(),
            chronology@.len() <= u32::MAX,
            unlocked@ == curve_upto(chronology@, totals@, i as int).0,
            started == curve_upto(chronology@, totals@, i as int).1,
            steps@ == curve_upto(chronology@, totals@, i as int).2,
        decreases chronology.len() - i,
    {
        proof {
            lemma_curve_started_bound(chronology@, totals@, i as int);
        }
        let stamp = chronology[i];
        let total = match totals.get(&stamp.app_id) {
            Some(t) => *t,
            None => 0,
        };
        if total > 0 {
            let count = match unlocked.get(&stamp.app_id) {
                Some(c) => *c,
                None => 0,
            };
            if count == 0 {
                started = started + 1;
            }
            let counted = count < total;
            let new_point = match steps.last() {
                Some(last) => last.day != stamp.day,
                None => true,
            };
            unlocked.insert(stamp.app_id, if counted { count + 1 } else { count });
            steps.push(CurveStep { day: stamp.day, total, counted, started, new_point });
        }
        i = i + 1;
    }
    steps
}

} // verus!
