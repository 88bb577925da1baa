//! The order in which staged achievements will be unlocked, as the user built
//! it by clicking, filled from the rarest-first ranking, or copied from a
//! friend's timeline.
use vstd::prelude::*;
use crate::text::str_equals;

verus! {

/// The characters of each id.
pub open spec fn ids_view(ids: Seq<String>) -> Seq<Seq<char>> {
    ids.map_values(|s: String| s@)
}

/// Where `id` first appears in `ids`, if it does.
pub open spec fn first_index(ids: Seq<Seq<char>>, id: Seq<char>) -> Option<int>
    decreases ids.len(),
{
    if ids.len() == 0 {
        None
    } else if ids[0] == id {
        Some(0)
    } else {
        match first_index(ids.drop_first(), id) {
            Some(k) => Some(k + 1),
            None => None,
        }
    }
}

proof fn lemma_first_index(ids: Seq<Seq<char>>, id: Seq<char>)
    ensures
        first_index(ids, id) is None <==> !ids.contains(id),
        first_index(ids, id) matches Some(k) ==> 0 <= k < ids.len() && ids[k] == id && forall|j: int|
            0 <= j < k ==> ids[j] != id,
    decreases ids.len(),
{
    if ids.len() > 0 {
        lemma_first_index(ids.drop_first(), id);
        if ids.contains(id) && ids[0] != id {
            let k = choose|k: int| 0 <= k < ids.len() && ids[k] == id;
            assert(ids.drop_first()[k - 1] == id);
        }
        if ids.drop_first().contains(id) {
            let k = choose|k: int| 0 <= k < ids.drop_first().len() && ids.drop_first()[k] == id;
            assert(ids[k + 1] == id);
        }
        if ids[0] != id {
            if first_index(ids.drop_first(), id) is Some {
                let k = first_index(ids.drop_first(), id)->0;
                assert forall|j: int| 0 <= j < k + 1 implies ids[j] != id by {
                    if j > 0 {
                        assert(ids.drop_first()[j - 1] != id);
                    }
                }
            }
        }
    }
}

/// The queue after toggling `id`: taken out where it first is, or added at
/// the end.
pub open spec fn toggled(q: Seq<Seq<char>>, id: Seq<char>) -> Seq<Seq<char>> {
    match first_index(q, id) {
        Some(k) => q.remove(k),
        None => q.push(id),
    }
}

/// Toggling an achievement that was not queued, then toggling it again,
/// leaves the queue as it was.
pub proof fn lemma_toggle_twice(q: Seq<Seq<char>>, id: Seq<char>)
    requires
        !q.contains(id),
    ensures
        toggled(toggled(q, id), id) == q,
{
    lemma_first_index(q, id);
    let once = q.push(id);
    lemma_first_index(once, id);
    assert(once[q.len() as int] == id);
    assert(once.contains(id));
    let k = first_index(once, id)->0;
    if k < q.len() {
        assert(q[k] == id);
        assert(q.contains(id));
    }
    assert(once.remove(q.len() as int) =~= q);
}

/// In a queue holding each achievement once, the numbers shown on the rows
/// run 1, 2, 3, ... in queue order.
pub proof fn lemma_positions_count_up(q: Seq<Seq<char>>, k: int)
    requires
        q.no_duplicates(),
        0 <= k < q.len(),
    ensures
        first_index(q, q[k]) == Some(k),
{
    lemma_first_index(q, q[k]);
    assert(q.contains(q[k]));
    let j = first_index(q, q[k])->0;
    if j != k {
        assert(q[j] == q[k]);
    }
}

/// The ids of `ids` that are in `present`, in order, repeats kept.
pub open spec fn kept_ids(ids: Seq<Seq<char>>, present: Seq<Seq<char>>) -> Seq<Seq<char>>
    decreases ids.len(),
{
    if ids.len() == 0 {
        Seq::empty()
    } else {
        let rest = kept_ids(ids.drop_last(), present);
        if present.contains(ids.last()) {
            rest.push(ids.last())
        } else {
            rest
        }
    }
}

/// An achievement as the queue sees it when filling itself.
pub struct QueueCandidate {
    pub id: String,
    pub achieved: bool,
    /// Nonzero when the game protects the achievement from being set.
    pub permission: i32,
}

/// The ids of the achievements that can be queued: locked and unprotected,
/// in order.
pub open spec fn eligible_ids(candidates: Seq<QueueCandidate>) -> Seq<Seq<char>>
    decreases candidates.len(),
{
    if candidates.len() == 0 {
        Seq::empty()
    } else {
        let rest = eligible_ids(candidates.drop_last());
        let c = candidates.last();
        if !c.achieved && c.permission == 0 {
            rest.push(c.id@)
        } else {
            rest
        }
    }
}

/// The staged order of achievement ids; an achievement's place in it, from 1,
/// is the number shown on its row.
pub struct UnlockQueue {
    order: Vec<String>,
}

impl View for UnlockQueue {
    type V = Seq<Seq<char>>;

    closed spec fn view(&self) -> Seq<Seq<char>> {
        ids_view(self.order@)
    }
}

/// A copy of each string.
fn copy_ids(ids: &Vec<String>) -> (out: Vec<String>)
    ensures
        ids_view(out@) == ids_view(ids@),
{
    let mut out: Vec<String> = Vec::new();
    let mut i: usize = 0;
    while i < ids.len()
        invariant
            i <= ids@.len(),
            ids_view(out@) == ids_view(ids@).take(i as int),
        decreases ids.len() - i,
    {
        let copied = ids[i].clone();
        assert(copied@ == ids@[i as int]@);
        let ghost before = out@;
        out.push(copied);
        proof {
            assert(out@ == before.push(copied));
            assert(ids_view(out@) =~= ids_view(before).push(copied@));
            assert(ids_view(ids@).take(i + 1) =~= ids_view(ids@).take(i as int).push(ids@[i as int]@));
        }
        i = i + 1;
    }
    assert(ids_view(ids@).take(ids@.len() as int) =~= ids_view(ids@));
    out
}

/// Where `id` is in `ids`, searching from the front.
fn find_id(ids: &Vec<String>, id: &str) -> (r: Option<usize>)
    ensures
        r matches Some(k) ==> k < ids@.len(),
        (match r {
            Some(k) => Some(k as int),
            None => None,
        }) == first_index(ids_view(ids@), id@),
{
    let ghost v = ids_view(ids@);
    proof {
        lemma_first_index(v, id@);
    }
    let mut i: usize = 0;
    while i < ids.len()
        invariant
            i <= ids@.len(),
            v == ids_view(ids@),
            forall|j: int| 0 <= j < i ==> v[j] != id@,
            first_index(v, id@) is None <==> !v.contains(id@),
            first_index(v, id@) matches Some(k) ==> 0 <= k < v.len() && v[k] == id@ && forall|j: int|
                0 <= j < k ==> v[j] != id@,
        decreases ids.len() - i,
    {
        if str_equals(ids[i].as_str(), id) {
            proof {
                assert(v[i as int] == id@);
                assert(v.contains(id@));
                let k = first_index(v, id@)->0;
                if k < i {
                    assert(v[k] != id@);
                }
                if i < k {
                    assert(v[i as int] != id@);
                }
            }
            return Some(i);
        }
        i = i + 1;
    }
    proof {
        if v.contains(id@) {
            let k = choose|k: int| 0 <= k < v.len() && v[k] == id@;
            assert(v[k] != id@);
        }
    }
    None
}

impl UnlockQueue {
    /// An empty queue.
    pub fn new() -> (q: Self)
        ensures
            q@ == Seq::<Seq<char>>::empty(),
    {
        let q = UnlockQueue { order: Vec::new() };
        assert(q@ =~= Seq::<Seq<char>>::empty());
        q
    }

    /// How many achievements are queued.
    pub fn len(&self) -> (n: usize)
        ensures
            n == self@.len(),
    {
        self.order.len()
    }

    /// Whether nothing is queued.
    pub fn is_empty(&self) -> (r: bool)
        ensures
            r == (self@.len() == 0),
    {
        self.order.len() == 0
    }

    /// The queued ids, in order.
    pub fn snapshot(&self) -> (ids: Vec<String>)
        ensures
            ids_view(ids@) == self@,
    {
        copy_ids(&self.order)
    }

    /// The number shown on the row of `id`: its place in the queue from 1, or
    /// 0 when it is not queued.
    pub fn position(&self, id: &str) -> (p: u32)
        requires
            self@.len() < u32::MAX,
        ensures
            p == (match first_index(self@, id@) {
                Some(k) => k + 1,
                None => 0,
            }),
    {
        match find_id(&self.order, id) {
            Some(k) => (k + 1) as u32,
            None => 0,
        }
    }

    /// Queues `id` at the end, or takes it out if it was queued (the ones
    /// after it move up a place); says whether it was queued now.
    pub fn toggle(&mut self, id: &str) -> (added: bool)
        ensures
            added == (first_index(old(self)@, id@) is None),
            final(self)@ == toggled(old(self)@, id@),
    {
        match find_id(&self.order, id) {
            Some(k) => {
                let ghost before = self@;
                self.order.remove(k);
                assert(self@ =~= before.remove(k as int));
                false
            },
            None => {
                let ghost before = self@;
                self.order.push(id.to_string());
                assert(self@ =~= before.push(id@));
                true
            },
        }
    }

    /// Empties the queue.
    pub fn clear(&mut self)
        ensures
            final(self)@ == Seq::<Seq<char>>::empty(),
    {
        self.order.clear();
        assert(self@ =~= Seq::<Seq<char>>::empty());
    }

    /// Replaces the queue with `ordered_ids` in their order, skipping the ids
    /// that are not among `present` (the achievements shown): the order of
    /// copy-timing mode comes from a friend's timeline, not from clicks.
    pub fn set_order(&mut self, present: &Vec<String>, ordered_ids: &Vec<String>)
        ensures
            final(self)@ == kept_ids(ids_view(ordered_ids@), ids_view(present@)),
    {
        self.clear();
        let ghost ids = ids_view(ordered_ids@);
        let ghost shown = ids_view(present@);
        let mut i: usize = 0;
        while i < ordered_ids.len()
            invariant
                i <= ordered_ids@.len(),
                ids == ids_view(ordered_ids@),
                shown == ids_view(present@),
                self@ == kept_ids(ids.take(i as int), shown),
            decreases ordered_ids.len() - i,
        {
            let id = &ordered_ids[i];
            proof {
                assert(ids.take(i + 1).drop_last() =~= ids.take(i as int));
                assert(ids.take(i + 1).last() == id@);
                lemma_first_index(shown, id@);
            }
            let ghost before = self@;
            match find_id(present, id.as_str()) {
                Some(_) => {
                    self.order.push(id.clone());
                    assert(self@ =~= before.push(id@));
                },
                None => {},
            }
            i = i + 1;
        }
        assert(ids.take(ids.len() as int) =~= ids);
    }

    /// Fills the queue with up to `target_count` achievements from `ranked`
    /// (the achievements, commonest first), skipping the unlocked and the
    /// protected ones.
    pub fn auto_fill(&mut self, ranked: &Vec<QueueCandidate>, target_count: usize)
        ensures
            final(self)@ == eligible_ids(ranked@).take(
                if target_count < eligible_ids(ranked@).len() {
                    target_count as int
                } else {
                    eligible_ids(ranked@).len() as int
                },
            ),
    {
        self.clear();
        let ghost all = eligible_ids(ranked@);
        let mut i: usize = 0;
        while i < ranked.len() && self.order.len() < target_count
            invariant
                i <= ranked@.len(),
                all == eligible_ids(ranked@),
                self@ == eligible_ids(ranked@.take(i as int)).take(
                    if target_count < eligible_ids(ranked@.take(i as int)).len() {
                        target_count as int
                    } else {
                        eligible_ids(ranked@.take(i as int)).len() as int
                    },
                ),
                self@.len() <= target_count,
            decreases ranked.len() - i,
        {
            let c = &ranked[i];
            proof {
                assert(ranked@.take(i + 1).drop_last() =~= ranked@.take(i as int));
                assert(ranked@.take(i + 1).last() == *c);
            }
            let ghost before = self@;
            if !c.achieved && c.permission == 0 {
                self.order.push(c.id.clone());
                assert(self@ =~= before.push(c.id@));
                assert(self@ =~= eligible_ids(ranked@.take(i + 1)).take(self@.len() as int));
            }
            i = i + 1;
        }
        proof {
            lemma_eligible_prefix(ranked@, i as int);
            if i == ranked@.len() {
                assert(ranked@.take(i as int) =~= ranked@);
            }
        }
    }
}

proof fn lemma_eligible_prefix(c: Seq<QueueCandidate>, i: int)
    requires
        0 <= i <= c.len(),
    ensures
        eligible_ids(c).take(eligible_ids(c.take(i)).len() as int) == eligible_ids(c.take(i)),
        eligible_ids(c.take(i)).len() <= eligible_ids(c).len(),
    decreases c.len() - i,
{
    if i == c.len() {
        assert(c.take(i) =~= c);
        assert(eligible_ids(c).take(eligible_ids(c).len() as int) =~= eligible_ids(c));
    } else {
        lemma_eligible_prefix(c, i + 1);
        assert(c.take(i + 1).drop_last() =~= c.take(i));
        let short = eligible_ids(c.take(i));
        let long = eligible_ids(c.take(i + 1));
        assert(long.take(short.len() as int) =~= short);
        assert(eligible_ids(c).take(short.len() as int) =~= eligible_ids(c).take(
            long.len() as int,
        ).take(short.len() as int));
    }
}

/// How many more achievements to unlock: the target count of unlocked ones
/// (a count, or for the "percent" unit the share of `total` that
/// `percent_target` was computed as), less those already unlocked.
pub fn resolve_target_count(
    unit: &str,
    count_value: i32,
    percent_target: usize,
    already_unlocked: usize,
) -> (more: usize)
    ensures
        more == ({
            let target: int = if unit@ == "percent"@ {
                percent_target as int
            } else if count_value < 0 {
                0
            } else {
                count_value as int
            };
            if target > already_unlocked {
                target - already_unlocked
            } else {
                0
            }
        }),
{
    let target: usize = if str_equals(unit, "percent") {
        percent_target
    } else if count_value < 0 {
        0
    } else {
        count_value as usize
    };
    target.saturating_sub(already_unlocked)
}

/// What the model says of `id`: its last entry.
pub open spec fn last_candidate(model: Seq<QueueCandidate>, id: Seq<char>) -> Option<QueueCandidate>
    decreases model.len(),
{
    if model.len() == 0 {
        None
    } else if model.last().id@ == id {
        Some(model.last())
    } else {
        last_candidate(model.drop_last(), id)
    }
}

/// Whether the friend's achievement `id` can be copied: the model has it,
/// still locked and writable.
pub open spec fn copyable(model: Seq<QueueCandidate>, id: Seq<char>) -> bool {
    last_candidate(model, id) matches Some(c) && !c.achieved && c.permission == 0
}

/// The positions, among the first `n` of the friend's unlocks, of those to
/// copy, in the friend's order.
pub open spec fn copy_plan_upto(source: Seq<(String, u32)>, model: Seq<QueueCandidate>, n: int) -> Seq<
    usize,
>
    decreases n,
{
    if n <= 0 {
        Seq::empty()
    } else {
        let rest = copy_plan_upto(source, model, n - 1);
        if copyable(model, source[n - 1].0@) {
            rest.push((n - 1) as usize)
        } else {
            rest
        }
    }
}

/// The entry of `model` for `id`, searching from the end.
fn find_candidate(model: &Vec<QueueCandidate>, id: &str) -> (r: Option<usize>)
    ensures
        (match r {
            Some(k) => Some(model@[k as int]),
            None => None,
        }) == last_candidate(model@, id@),
        r matches Some(k) ==> k < model@.len(),
{
    let mut j: usize = model.len();
    assert(model@.take(model@.len() as int) =~= model@);
    while j > 0
        invariant
            j <= model@.len(),
            last_candidate(model@, id@) == last_candidate(model@.take(j as int), id@),
        decreases j,
    {
        proof {
            assert(model@.take(j as int).drop_last() =~= model@.take(j - 1));
        }
        if str_equals(model[j - 1].id.as_str(), id) {
            return Some(j - 1);
        }
        j = j - 1;
    }
    None
}

/// The friend's unlocks (`(id, unix time)`, in order) worth copying: those
/// still locked here and writable. Returns their positions in `source`.
pub fn copy_plan(source: &Vec<(String, u32)>, model: &Vec<QueueCandidate>) -> (plan: Vec<usize>)
    ensures
        plan@ == copy_plan_upto(source@, model@, source@.len() as int),
{
    let mut plan: Vec<usize> = Vec::new();
    let mut i: usize = 0;
    while i < source.len()
        invariant
            i <= source@.len(),
            plan@ == copy_plan_upto(source@, model@, i as int),
        decreases source.len() - i,
    {
        let keep = match find_candidate(model, source[i].0.as_str()) {
            Some(k) => !model[k].achieved && model[k].permission == 0,
            None => false,
        };
        if keep {
            plan.push(i);
        }
        i = i + 1;
    }
    plan
}

/// The hours and minutes shown for an offset of `seconds` before unlocking.
pub fn hours_minutes(seconds: u64) -> (hm: (u64, u64))
    ensures
        hm.0 == seconds / 3600,
        hm.1 == (seconds % 3600) / 60,
{
    (seconds / 3600, (seconds % 3600) / 60)
}

/// Where the achievement `id` last appears in the model, if it does.
pub open spec fn last_index_of(model: Seq<Seq<char>>, id: Seq<char>) -> Option<int>
    decreases model.len(),
{
    if model.len() == 0 {
        None
    } else if model.last() == id {
        Some(model.len() - 1)
    } else {
        last_index_of(model.drop_last(), id)
    }
}

/// The achievements behind the first `n` queued ids, by their place in the
/// model: an id the model lacks, or one already taken earlier in the queue,
/// gives none.
pub open spec fn resolved_upto(model: Seq<Seq<char>>, ids: Seq<Seq<char>>, n: int) -> Seq<usize>
    decreases n,
{
    if n <= 0 {
        Seq::empty()
    } else {
        let rest = resolved_upto(model, ids, n - 1);
        let id = ids[n - 1];
        if !ids.take(n - 1).contains(id) && last_index_of(model, id) is Some {
            rest.push(last_index_of(model, id)->0 as usize)
        } else {
            rest
        }
    }
}

/// Where `id` last is among `model`.
fn find_last(model: &Vec<String>, id: &str) -> (r: Option<usize>)
    ensures
        (match r {
            Some(k) => Some(k as int),
            None => None,
        }) == last_index_of(ids_view(model@), id@),
{
    let ghost v = ids_view(model@);
    let mut j: usize = model.len();
    assert(v.take(v.len() as int) =~= v);
    while j > 0
        invariant
            j <= model@.len(),
            v == ids_view(model@),
            last_index_of(v, id@) == last_index_of(v.take(j as int), id@),
        decreases j,
    {
        proof {
            assert(v.take(j as int).drop_last() =~= v.take(j - 1));
        }
        if str_equals(model[j - 1].as_str(), id) {
            return Some(j - 1);
        }
        j = j - 1;
    }
    None
}

/// The achievements the staged ids stand for, in queue order, by their place
/// among the model's ids.
pub fn resolve_queue_to_objects(model: &Vec<String>, ids: &Vec<String>) -> (positions: Vec<usize>)
    ensures
        positions@ == resolved_upto(ids_view(model@), ids_view(ids@), ids@.len() as int),
{
    let ghost mv = ids_view(model@);
    let ghost iv = ids_view(ids@);
    let mut positions: Vec<usize> = Vec::new();
    let mut i: usize = 0;
    while i < ids.len()
        invariant
            i <= ids@.len(),
            mv == ids_view(model@),
            iv == ids_view(ids@),
            positions@ == resolved_upto(mv, iv, i as int),
        decreases ids.len() - i,
    {
        let mut seen = false;
        let mut k: usize = 0;
        while k < i && !seen
            invariant
                k <= i,
                i < ids@.len(),
                iv == ids_view(ids@),
                seen == iv.take(k as int).contains(iv[i as int]),
            decreases i - k, if seen { 0int } else { 1int },
        {
            proof {
                assert(iv.take(k + 1) =~= iv.take(k as int).push(iv[k as int]));
            }
            if str_equals(ids[k].as_str(), ids[i].as_str()) {
                seen = true;
                proof {
                    assert(iv.take(k + 1)[k as int] == iv[i as int]);
                }
            } else {
                proof {
                    let t = iv.take(k + 1);
                    let x = iv[i as int];
                    if t.contains(x) {
                        let j = choose|j: int| 0 <= j < t.len() && t[j] == x;
                        assert(iv.take(k as int)[j] == x);
                    }
                }
            }
            k = k + 1;
        }
        proof {
            if !seen {
                assert(k == i);
            } else {
                let t = iv.take(k as int);
                let x = iv[i as int];
                let j = choose|j: int| 0 <= j < t.len() && t[j] == x;
                assert(iv.take(i as int)[j] == x);
            }
        }
        if !seen {
            match find_last(model, ids[i].as_str()) {
                Some(p) => {
                    positions.push(p);
                },
                None => {},
            }
        }
        i = i + 1;
    }
    positions
}

impl UnlockQueue {
    /// Whether the timed unlock can start: something is staged and not every
    /// achievement is unlocked yet.
    pub fn start_enabled(&self, unlocked: usize, total: u32) -> (enabled: bool)
        ensures
            enabled == (unlocked != total && self@.len() > 0),
    {
        let all_done = unlocked == total as usize;
        !all_done && self.order.len() > 0
    }
}

/// Whether an achievement can be staged: still locked and writable.
pub fn stageable(achieved: bool, permission: i32) -> (r: bool)
    ensures
        r == (!achieved && permission == 0),
{
    !achieved && permission == 0
}

} // verus!
