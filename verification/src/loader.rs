//! The queue behind reading achievement counts: apps the user is looking at
//! first, then the rest of the library, chunk by chunk, with retries.
use vstd::prelude::*;
use std::collections::{HashMap, HashSet, VecDeque};
use crate::library::{last_position, tracks, with_counts, AppIndex, AppRecord};

verus! {

broadcast use vstd::std_specs::hash::group_hash_axioms;

/// `s` without the ids in `drop`, order kept.
pub open spec fn without(s: Seq<u32>, drop: Set<u32>) -> Seq<u32>
    decreases s.len(),
{
    if s.len() == 0 {
        s
    } else {
        (if drop.contains(s[0]) {
            Seq::empty()
        } else {
            seq![s[0]]
        }) + without(s.drop_first(), drop)
    }
}

proof fn lemma_without_contains(s: Seq<u32>, drop: Set<u32>, x: u32)
    ensures
        without(s, drop).contains(x) <==> (s.contains(x) && !drop.contains(x)),
    decreases s.len(),
{
    if s.len() > 0 {
        lemma_without_contains(s.drop_first(), drop, x);
        let head: Seq<u32> = if drop.contains(s[0]) {
            Seq::empty()
        } else {
            seq![s[0]]
        };
        let tail = without(s.drop_first(), drop);
        if (head + tail).contains(x) {
            let i = choose|i: int| 0 <= i < (head + tail).len() && (head + tail)[i] == x;
            if i >= head.len() {
                assert(tail[i - head.len()] == x);
            }
        }
        if s.contains(x) && !drop.contains(x) {
            let i = choose|i: int| 0 <= i < s.len() && s[i] == x;
            if i > 0 {
                assert(s.drop_first()[i - 1] == x);
                let k = choose|k: int| 0 <= k < tail.len() && tail[k] == x;
                assert((head + tail)[head.len() + k] == x);
            } else {
                assert((head + tail)[0] == x);
            }
        }
        if tail.contains(x) {
            let k = choose|k: int| 0 <= k < tail.len() && tail[k] == x;
            assert((head + tail)[head.len() + k] == x);
        }
    }
}

proof fn lemma_without_no_duplicates(s: Seq<u32>, drop: Set<u32>)
    requires
        s.no_duplicates(),
    ensures
        without(s, drop).no_duplicates(),
    decreases s.len(),
{
    if s.len() > 0 {
        lemma_without_no_duplicates(s.drop_first(), drop);
        lemma_without_contains(s.drop_first(), drop, s[0]);
        assert(!s.drop_first().contains(s[0])) by {
            if s.drop_first().contains(s[0]) {
                let i = choose|i: int| 0 <= i < s.drop_first().len() && s.drop_first()[i] == s[0];
                assert(s[i + 1] == s[0]);
            }
        }
    }
}

/// A set of app ids that remembers the order they were added in: a plain set
/// would scramble "visible first" and library order both.
pub struct OrderedSet {
    order: VecDeque<u32>,
    set: HashSet<u32>,
}

impl View for OrderedSet {
    type V = Seq<u32>;

    closed spec fn view(&self) -> Seq<u32> {
        self.order@
    }
}

impl OrderedSet {
    /// The order holds each id once, and the set holds the same ids.
    pub closed spec fn wf(&self) -> bool {
        &&& self.order@.no_duplicates()
        &&& self.set@ == self.order@.to_set()
    }

    /// An empty set.
    pub fn new() -> (s: Self)
        ensures
            s.wf(),
            s@ == Seq::<u32>::empty(),
    {
        let s = OrderedSet { order: VecDeque::new(), set: HashSet::new() };
        assert(s.set@ =~= s.order@.to_set());
        s
    }

    /// Whether `id` is in the set.
    pub fn contains(&self, id: u32) -> (r: bool)
        requires
            self.wf(),
        ensures
            r == self@.contains(id),
    {
        self.set.contains(&id)
    }

    /// Whether the set is empty.
    pub fn is_empty(&self) -> (r: bool)
        requires
            self.wf(),
        ensures
            r == (self@.len() == 0),
    {
        self.order.len() == 0
    }

    /// Adds `id` at the end unless it is already in; says whether it was added.
    pub fn insert(&mut self, id: u32) -> (added: bool)
        requires
            old(self).wf(),
        ensures
            final(self).wf(),
            added == !old(self)@.contains(id),
            final(self)@ == (if added {
                old(self)@.push(id)
            } else {
                old(self)@
            }),
    {
        let ghost before = self.order@;
        if self.set.insert(id) {
            self.order.push_back(id);
            proof {
                lemma_push_to_set(before, id);
                assert(self.set@ =~= self.order@.to_set());
                assert forall|i: int, j: int|
                    0 <= i < self.order@.len() && 0 <= j < self.order@.len() && i != j implies self.order@[i]
                    != self.order@[j] by {
                    if i == self.order@.len() - 1 {
                        assert(old(self).order@.contains(self.order@[j]));
                    } else if j == self.order@.len() - 1 {
                        assert(old(self).order@.contains(self.order@[i]));
                    }
                }
            }
            true
        } else {
            assert(self.set@ =~= self.order@.to_set());
            false
        }
    }

    /// Takes `id` out; says whether it was in.
    pub fn remove(&mut self, id: u32) -> (removed: bool)
        requires
            old(self).wf(),
        ensures
            final(self).wf(),
            removed == old(self)@.contains(id),
            final(self)@ == without(old(self)@, set![id]),
    {
        let ghost drop = set![id];
        let removed = self.set.remove(&id);
        if !removed {
            proof {
                assert(self.set@ =~= self.order@.to_set());
                lemma_without_unchanged(self.order@, drop);
            }
            return false;
        }
        let mut pos: usize = 0;
        let n = self.order.len();
        while pos < n && self.order[pos] != id
            invariant
                n == self.order@.len(),
                pos <= n,
                forall|k: int| 0 <= k < pos ==> self.order@[k] != id,
            decreases n - pos,
        {
            pos = pos + 1;
        }
        let ghost before = self.order@;
        assert(pos < n);
        self.order.remove(pos);
        proof {
            lemma_without_single(before, id, pos as int);
            assert(self.set@ =~= self.order@.to_set()) by {
                assert forall|x: u32| self.set@.contains(x) <==> self.order@.to_set().contains(x) by {
                    lemma_without_contains(before, drop, x);
                }
            }
            lemma_without_no_duplicates(before, drop);
        }
        true
    }

    /// Keeps only the ids not in `drop`, in order.
    pub fn retain_not_in(&mut self, drop: &HashSet<u32>)
        requires
            old(self).wf(),
        ensures
            final(self).wf(),
            final(self)@ == without(old(self)@, drop@),
    {
        let ghost initial = self.order@;
        let mut kept: VecDeque<u32> = VecDeque::new();
        while self.order.len() > 0
            invariant
                kept@ + without(self.order@, drop@) == without(initial, drop@),
            decreases self.order@.len(),
        {
            let ghost rest = self.order@;
            let x = match self.order.pop_front() {
                Some(x) => x,
                None => 0,
            };
            proof {
                assert(rest.drop_first() =~= self.order@);
            }
            if !drop.contains(&x) {
                kept.push_back(x);
            }
            proof {
                assert(kept@ + without(self.order@, drop@) =~= without(initial, drop@));
            }
        }
        assert(without(self.order@, drop@) =~= Seq::<u32>::empty());
        assert(kept@ =~= without(initial, drop@));
        self.order = kept;
        let mut set: HashSet<u32> = HashSet::new();
        let mut i: usize = 0;
        while i < self.order.len()
            invariant
                i <= self.order@.len(),
                set@ == self.order@.take(i as int).to_set(),
            decreases self.order@.len() - i,
        {
            set.insert(self.order[i]);
            proof {
                assert(self.order@.take(i + 1) =~= self.order@.take(i as int).push(self.order@[i as int]));
                lemma_push_to_set(self.order@.take(i as int), self.order@[i as int]);
                assert(set@ =~= self.order@.take(i + 1).to_set());
            }
            i = i + 1;
        }
        assert(self.order@.take(self.order@.len() as int) =~= self.order@);
        self.set = set;
        proof {
            lemma_without_no_duplicates(initial, drop@);
        }
    }

    /// Empties the set.
    pub fn clear(&mut self)
        ensures
            final(self).wf(),
            final(self)@ == Seq::<u32>::empty(),
    {
        self.order.clear();
        self.set = HashSet::new();
        assert(self.set@ =~= self.order@.to_set());
    }

    /// Takes up to `n` ids from the front, oldest first.
    pub fn drain_front(&mut self, n: usize) -> (out: Vec<u32>)
        requires
            old(self).wf(),
        ensures
            final(self).wf(),
            out@ == old(self)@.take(if n < old(self)@.len() { n as int } else { old(self)@.len() as int }),
            final(self)@ == old(self)@.skip(if n < old(self)@.len() { n as int } else { old(self)@.len() as int }),
    {
        let ghost initial = self.order@;
        let take = if n < self.order.len() { n } else { self.order.len() };
        let mut out: Vec<u32> = Vec::new();
        let mut k: usize = 0;
        while k < take
            invariant
                take <= initial.len(),
                k <= take,
                out@ == initial.take(k as int),
                self.order@ == initial.skip(k as int),
                initial.no_duplicates(),
                self.set@ == self.order@.to_set(),
            decreases take - k,
        {
            let id = match self.order.pop_front() {
                Some(x) => x,
                None => 0,
            };
            self.set.remove(&id);
            out.push(id);
            proof {
                assert(out@ =~= initial.take(k + 1));
                assert(self.order@ =~= initial.skip(k + 1));
                assert forall|x: u32| self.set@.contains(x) <==> self.order@.to_set().contains(x) by {
                    if x == id {
                        assert(initial[k as int] == id);
                        if self.order@.contains(x) {
                            let j = choose|j: int| 0 <= j < self.order@.len() && self.order@[j] == x;
                            assert(initial[k + 1 + j] == x);
                        }
                    } else {
                        if initial.skip(k as int).contains(x) {
                            let j = choose|j: int| 0 <= j < initial.skip(k as int).len() && initial.skip(k as int)[j] == x;
                            assert(j != 0);
                            assert(self.order@[j - 1] == x);
                        }
                        if self.order@.contains(x) {
                            let j = choose|j: int| 0 <= j < self.order@.len() && self.order@[j] == x;
                            assert(initial.skip(k as int)[j + 1] == x);
                        }
                    }
                }
                assert(self.set@ =~= self.order@.to_set());
            }
            k = k + 1;
        }
        proof {
            assert forall|i: int, j: int|
                0 <= i < self.order@.len() && 0 <= j < self.order@.len() && i != j implies self.order@[i]
                != self.order@[j] by {
                assert(self.order@[i] == initial[take + i]);
                assert(self.order@[j] == initial[take + j]);
            }
        }
        out
    }
}

proof fn lemma_push_to_set(s: Seq<u32>, x: u32)
    ensures
        s.push(x).to_set() == s.to_set().insert(x),
{
    assert forall|y: u32| s.push(x).contains(y) <==> (s.contains(y) || y == x) by {
        if s.push(x).contains(y) {
            let i = choose|i: int| 0 <= i < s.push(x).len() && s.push(x)[i] == y;
            if i < s.len() {
                assert(s[i] == y);
            }
        }
        if s.contains(y) {
            let i = choose|i: int| 0 <= i < s.len() && s[i] == y;
            assert(s.push(x)[i] == y);
        }
        if y == x {
            assert(s.push(x)[s.len() as int] == y);
        }
    }
    assert forall|y: u32| #[trigger] s.push(x).to_set().contains(y) <==> s.to_set().insert(x).contains(y) by {
        assert(s.push(x).to_set().contains(y) == s.push(x).contains(y));
        assert(s.to_set().contains(y) == s.contains(y));
    }
    assert(s.push(x).to_set() =~= s.to_set().insert(x));
}

proof fn lemma_without_unchanged(s: Seq<u32>, drop: Set<u32>)
    requires
        forall|i: int| 0 <= i < s.len() ==> !drop.contains(#[trigger] s[i]),
    ensures
        without(s, drop) == s,
    decreases s.len(),
{
    if s.len() > 0 {
        lemma_without_unchanged(s.drop_first(), drop);
        assert(seq![s[0]] + s.drop_first() =~= s);
    }
}

proof fn lemma_without_single(s: Seq<u32>, id: u32, pos: int)
    requires
        s.no_duplicates(),
        0 <= pos < s.len(),
        s[pos] == id,
    ensures
        without(s, set![id]) == s.remove(pos),
    decreases s.len(),
{
    if pos == 0 {
        lemma_without_unchanged(s.drop_first(), set![id]);
        assert(s.remove(0) =~= s.drop_first());
        assert(Seq::<u32>::empty() + s.drop_first() =~= s.drop_first());
    } else {
        lemma_without_single(s.drop_first(), id, pos - 1);
        assert(s.remove(pos) =~= seq![s[0]] + s.drop_first().remove(pos - 1));
    }
}

/// `q` with each of `ids` added at the end, in order, unless it is to be
/// skipped or already queued.
pub open spec fn enqueue(q: Seq<u32>, ids: Seq<u32>, skip: Set<u32>) -> Seq<u32>
    decreases ids.len(),
{
    if ids.len() == 0 {
        q
    } else {
        let q1 = enqueue(q, ids.drop_last(), skip);
        let x = ids.last();
        if skip.contains(x) || q1.contains(x) {
            q1
        } else {
            q1.push(x)
        }
    }
}

/// The state of the count loader.
pub struct LoaderView {
    /// Apps to read first, oldest request first.
    pub priority: Seq<u32>,
    /// The rest of the library still to read, in order.
    pub backlog: Seq<u32>,
    /// Apps whose counts have been asked for and not answered yet.
    pub in_flight: Set<u32>,
    pub worker_running: bool,
    /// Moves on whenever running work is to be forgotten.
    pub generation: u64,
    /// The list generation the backlog was last filled for.
    pub queued_generation: Option<u64>,
    /// A rescan of every game is under way.
    pub force: bool,
    /// Apps already read a second time after going unanswered.
    pub retried: Set<u32>,
    pub transport_failures: u32,
    /// Reading is held until local counts have been applied.
    pub hold: bool,
    /// Apps written to since, each with the number of its latest write.
    pub dirty: Map<u32, u64>,
    pub marks: u64,
}

/// Reads achievement counts in chunks: prioritised apps first, then the
/// backlog; retries an unanswered app once; gives up after two transport
/// failures in a row. The worker that sends the requests lives outside; this
/// holds every decision it takes.
pub struct AchievementLoader {
    priority: OrderedSet,
    backlog: OrderedSet,
    in_flight: HashSet<u32>,
    worker_running: bool,
    generation: u64,
    queued_generation: Option<u64>,
    force: bool,
    retried: HashSet<u32>,
    transport_failures: u32,
    hold: bool,
    dirty: HashMap<u32, u64>,
    marks: u64,
}

impl View for AchievementLoader {
    type V = LoaderView;

    closed spec fn view(&self) -> LoaderView {
        LoaderView {
            priority: self.priority@,
            backlog: self.backlog@,
            in_flight: self.in_flight@,
            worker_running: self.worker_running,
            generation: self.generation,
            queued_generation: self.queued_generation,
            force: self.force,
            retried: self.retried@,
            transport_failures: self.transport_failures,
            hold: self.hold,
            dirty: self.dirty@,
            marks: self.marks,
        }
    }
}

/// The ids that are neither prioritised nor being read.
pub open spec fn busy(v: LoaderView) -> Set<u32> {
    v.priority.to_set().union(v.in_flight)
}

/// No id is in both sequences.
pub open spec fn seqs_apart(p: Seq<u32>, b: Seq<u32>) -> bool {
    forall|x: u32| #[trigger] p.contains(x) ==> !b.contains(x)
}

/// No app waits in both queues: a prioritised app is never also in the backlog.
pub open spec fn queues_apart(v: LoaderView) -> bool {
    seqs_apart(v.priority, v.backlog)
}

proof fn lemma_apart_push_backlog(p: Seq<u32>, b: Seq<u32>, id: u32)
    requires
        seqs_apart(p, b),
        !p.contains(id),
    ensures
        seqs_apart(p, b.push(id)),
{
    assert forall|x: u32| #[trigger] p.contains(x) implies !b.push(id).contains(x) by {
        if b.push(id).contains(x) {
            let j = choose|j: int| 0 <= j < b.push(id).len() && b.push(id)[j] == x;
            if j < b.len() {
                assert(b[j] == x);
            }
        }
    }
}

proof fn lemma_apart_prioritize(p: Seq<u32>, b: Seq<u32>, id: u32)
    requires
        seqs_apart(p, b),
    ensures
        seqs_apart(p.push(id), without(b, set![id])),
        seqs_apart(p, without(b, set![id])),
{
    assert forall|x: u32| #[trigger] p.push(id).contains(x) implies !without(b, set![id]).contains(x) by {
        lemma_without_contains(b, set![id], x);
        if x != id {
            let j = choose|j: int| 0 <= j < p.push(id).len() && p.push(id)[j] == x;
            assert(p[j] == x);
            assert(p.contains(x));
        }
    }
    assert forall|x: u32| #[trigger] p.contains(x) implies !without(b, set![id]).contains(x) by {
        lemma_without_contains(b, set![id], x);
    }
}

proof fn lemma_apart_skip(p: Seq<u32>, b: Seq<u32>, i: int, j: int)
    requires
        seqs_apart(p, b),
        0 <= i <= p.len(),
        0 <= j <= b.len(),
    ensures
        seqs_apart(p.skip(i), b.skip(j)),
{
    assert forall|x: u32| #[trigger] p.skip(i).contains(x) implies !b.skip(j).contains(x) by {
        let k = choose|k: int| 0 <= k < p.skip(i).len() && p.skip(i)[k] == x;
        assert(p[i + k] == x);
        assert(p.contains(x));
        if b.skip(j).contains(x) {
            let m = choose|m: int| 0 <= m < b.skip(j).len() && b.skip(j)[m] == x;
            assert(b[j + m] == x);
            assert(b.contains(x));
        }
    }
}

proof fn lemma_apart_without(p: Seq<u32>, b: Seq<u32>, d: Set<u32>)
    requires
        seqs_apart(p, b),
    ensures
        seqs_apart(without(p, d), without(b, d)),
{
    assert forall|x: u32| #[trigger] without(p, d).contains(x) implies !without(b, d).contains(x) by {
        lemma_without_contains(p, d, x);
        lemma_without_contains(b, d, x);
    }
}



impl AchievementLoader {
    /// Both queues hold each id once, and no id is in both.
    pub closed spec fn wf(&self) -> bool {
        &&& self.priority.wf()
        &&& self.backlog.wf()
        &&& queues_apart(self@)
    }

    /// Whatever the loader went through, no app waits in both queues.
    pub proof fn lemma_queues_apart(&self)
        requires
            self.wf(),
        ensures
            queues_apart(self@),
    {
    }

    /// A loader with nothing queued.
    pub fn new() -> (loader: Self)
        ensures
            loader.wf(),
            loader@ == (LoaderView {
                priority: Seq::empty(),
                backlog: Seq::empty(),
                in_flight: Set::empty(),
                worker_running: false,
                generation: 0,
                queued_generation: None,
                force: false,
                retried: Set::empty(),
                transport_failures: 0,
                hold: false,
                dirty: Map::empty(),
                marks: 0,
            }),
    {
        AchievementLoader {
            priority: OrderedSet::new(),
            backlog: OrderedSet::new(),
            in_flight: HashSet::new(),
            worker_running: false,
            generation: 0,
            queued_generation: None,
            force: false,
            retried: HashSet::new(),
            transport_failures: 0,
            hold: false,
            dirty: HashMap::new(),
            marks: 0,
        }
    }

    /// Forgets all queued and running work; a worker still running sees the
    /// new generation and stops.
    pub fn reset(&mut self)
        ensures
            final(self).wf(),
            final(self)@ == (LoaderView {
                priority: Seq::empty(),
                backlog: Seq::empty(),
                in_flight: Set::empty(),
                worker_running: false,
                generation: old(self)@.generation.wrapping_add(1),
                force: false,
                retried: Set::empty(),
                transport_failures: 0,
                hold: false,
                ..old(self)@
            }),
    {
        self.generation = self.generation.wrapping_add(1);
        self.priority.clear();
        self.backlog.clear();
        self.in_flight = HashSet::new();
        self.worker_running = false;
        self.force = false;
        self.retried = HashSet::new();
        self.transport_failures = 0;
        self.hold = false;
    }

    /// Starts a rescan of every game: everything is forgotten and every game
    /// read again, bypassing Steam's cached answers.
    pub fn start_rescan(&mut self)
        ensures
            final(self).wf(),
            final(self)@ == (LoaderView {
                priority: Seq::empty(),
                backlog: Seq::empty(),
                in_flight: Set::empty(),
                worker_running: false,
                generation: old(self)@.generation.wrapping_add(1),
                force: true,
                retried: Set::empty(),
                transport_failures: 0,
                hold: false,
                ..old(self)@
            }),
    {
        self.reset();
        self.force = true;
    }

    /// After the backlog was filled for a rescan: with nothing to read no
    /// worker runs to finish it, so the rescan ends at once (else every later
    /// rescan would be refused). Says whether it goes on.
    pub fn confirm_rescan(&mut self) -> (started: bool)
        ensures
            old(self).wf() ==> final(self).wf(),
            started == old(self)@.worker_running,
            final(self)@ == (LoaderView { force: old(self)@.force && started, ..old(self)@ }),
    {
        if !self.worker_running {
            self.force = false;
            return false;
        }
        true
    }

    /// Rescans every game: everything is forgotten, the games still unread
    /// (`unread`, in library order, for list generation `generation`) are
    /// queued, and the worker starts when there is anything to read. Returns
    /// the generation the worker runs under; with nothing to read the rescan
    /// ends at once.
    pub fn rescan_all(&mut self, unread: &Vec<u32>, generation: u64) -> (started: Option<u64>)
        ensures
            final(self).wf(),
            ({
                let backlog = enqueue(Seq::empty(), unread@, Set::empty());
                let g = old(self)@.generation.wrapping_add(1);
                &&& started == (if backlog.len() > 0 {
                    Some(g)
                } else {
                    None
                })
                &&& final(self)@ == (LoaderView {
                    priority: Seq::empty(),
                    backlog,
                    in_flight: Set::empty(),
                    worker_running: started is Some,
                    generation: g,
                    queued_generation: Some(generation),
                    force: started is Some,
                    retried: Set::empty(),
                    transport_failures: 0,
                    hold: false,
                    ..old(self)@
                })
            }),
    {
        self.start_rescan();
        proof {
            assert(busy(self@) =~= Set::<u32>::empty());
        }
        self.queue_remaining(unread, generation);
        let started = self.try_start_worker();
        self.confirm_rescan();
        started
    }

    /// Cancels the sweep: everything is forgotten and the games still unread
    /// are queued again, the worker starting when there is anything to read.
    /// Returns the generation the worker runs under.
    pub fn cancel_sweep(&mut self, unread: &Vec<u32>, generation: u64) -> (started: Option<u64>)
        ensures
            final(self).wf(),
            ({
                let backlog = enqueue(Seq::empty(), unread@, Set::empty());
                let g = old(self)@.generation.wrapping_add(1);
                &&& started == (if backlog.len() > 0 {
                    Some(g)
                } else {
                    None
                })
                &&& final(self)@ == (LoaderView {
                    priority: Seq::empty(),
                    backlog,
                    in_flight: Set::empty(),
                    worker_running: started is Some,
                    generation: g,
                    queued_generation: Some(generation),
                    force: false,
                    retried: Set::empty(),
                    transport_failures: 0,
                    hold: false,
                    ..old(self)@
                })
            }),
    {
        self.reset();
        proof {
            assert(busy(self@) =~= Set::<u32>::empty());
        }
        self.queue_remaining(unread, generation);
        self.try_start_worker()
    }

    /// A rescan is under way.
    pub fn is_rescanning(&self) -> (r: bool)
        ensures
            r == self@.force,
    {
        self.force
    }

    /// Reading is under way or held.
    pub fn is_working(&self) -> (r: bool)
        ensures
            r == (self@.worker_running || self@.hold),
    {
        self.worker_running || self.hold
    }

    /// Drops the backlog, keeping prioritised apps.
    pub fn cancel_backlog(&mut self)
        ensures
            old(self).wf() ==> final(self).wf(),
            final(self)@ == (LoaderView { backlog: Seq::empty(), ..old(self)@ }),
    {
        self.backlog.clear();
    }

    /// Holds reading until local counts have been applied.
    pub fn hold_sweep(&mut self)
        ensures
            old(self).wf() ==> final(self).wf(),
            final(self)@ == (LoaderView { hold: true, ..old(self)@ }),
    {
        self.hold = true;
    }

    /// Lifts the hold; says whether there was one (and reading should resume).
    pub fn release_sweep(&mut self) -> (was_held: bool)
        ensures
            old(self).wf() ==> final(self).wf(),
            was_held == old(self)@.hold,
            final(self)@ == (LoaderView { hold: false, ..old(self)@ }),
    {
        let was_held = self.hold;
        self.hold = false;
        was_held
    }

    /// Reads `app_id` next, unless it is already being read or prioritised.
    pub fn prioritize(&mut self, app_id: u32)
        requires
            old(self).wf(),
        ensures
            final(self).wf(),
            final(self)@ == (if old(self)@.in_flight.contains(app_id) || old(
                self,
            )@.priority.contains(app_id) {
                old(self)@
            } else {
                LoaderView {
                    backlog: without(old(self)@.backlog, set![app_id]),
                    priority: old(self)@.priority.push(app_id),
                    ..old(self)@
                }
            }),
    {
        if self.in_flight.contains(&app_id) {
            return;
        }
        if self.priority.contains(app_id) {
            return;
        }
        proof {
            lemma_apart_prioritize(self@.priority, self@.backlog, app_id);
        }
        self.backlog.remove(app_id);
        self.priority.insert(app_id);
    }

    /// `app_id`'s progress was just written: read it again first, and mark it
    /// with a fresh number so an answer predating the write does not settle it.
    pub fn refresh_app(&mut self, app_id: u32)
        requires
            old(self).wf(),
        ensures
            final(self).wf(),
            final(self)@ == (LoaderView {
                backlog: without(old(self)@.backlog, set![app_id]),
                priority: if old(self)@.priority.contains(app_id) {
                    old(self)@.priority
                } else {
                    old(self)@.priority.push(app_id)
                },
                marks: old(self)@.marks.wrapping_add(1),
                dirty: old(self)@.dirty.insert(app_id, old(self)@.marks.wrapping_add(1)),
                ..old(self)@
            }),
    {
        proof {
            lemma_apart_prioritize(self@.priority, self@.backlog, app_id);
        }
        self.backlog.remove(app_id);
        self.priority.insert(app_id);
        self.marks = self.marks.wrapping_add(1);
        self.dirty.insert(app_id, self.marks);
    }

    /// Whether `app_id` was written to since its counts were last read.
    pub fn is_dirty(&self, app_id: u32) -> (r: bool)
        ensures
            r == self@.dirty.contains_key(app_id),
    {
        self.dirty.contains_key(&app_id)
    }

    fn enqueue_backlog(&mut self, ids: &Vec<u32>, check_in_flight: bool)
        requires
            old(self).wf(),
        ensures
            final(self).wf(),
            final(self)@ == (LoaderView {
                backlog: enqueue(
                    old(self)@.backlog,
                    ids@,
                    if check_in_flight {
                        busy(old(self)@)
                    } else {
                        old(self)@.priority.to_set()
                    },
                ),
                ..old(self)@
            }),
    {
        let ghost skip = if check_in_flight {
            busy(self@)
        } else {
            self@.priority.to_set()
        };
        let ghost start = self.backlog@;
        let mut i: usize = 0;
        while i < ids.len()
            invariant
                self.wf(),
                i <= ids@.len(),
                skip == (if check_in_flight {
                    self.priority@.to_set().union(self.in_flight@)
                } else {
                    self.priority@.to_set()
                }),
                self.backlog@ == enqueue(start, ids@.take(i as int), skip),
                start == old(self)@.backlog,
                self@ == (LoaderView { backlog: self@.backlog, ..old(self)@ }),
            decreases ids.len() - i,
        {
            let id = ids[i];
            let skipped = self.priority.contains(id) || (check_in_flight && self.in_flight.contains(
                &id,
            ));
            proof {
                assert(ids@.take(i + 1).drop_last() =~= ids@.take(i as int));
                assert(ids@.take(i + 1).last() == id);
            }
            if !skipped {
                proof {
                    lemma_apart_push_backlog(self@.priority, self@.backlog, id);
                }
                self.backlog.insert(id);
            }
            i = i + 1;
        }
        assert(ids@.take(ids@.len() as int) =~= ids@);
    }

    /// Queues `app_ids` (the cards on screen first) behind the backlog,
    /// skipping any prioritised or being read.
    pub fn queue_apps(&mut self, app_ids: &Vec<u32>)
        requires
            old(self).wf(),
        ensures
            final(self).wf(),
            final(self)@ == (LoaderView {
                backlog: enqueue(old(self)@.backlog, app_ids@, busy(old(self)@)),
                ..old(self)@
            }),
    {
        self.enqueue_backlog(app_ids, true);
    }

    /// Queues the games still unread (`unread`, in library order) for list
    /// generation `generation`: only when the backlog ran dry or the list
    /// changed since it was filled.
    pub fn queue_remaining(&mut self, unread: &Vec<u32>, generation: u64)
        requires
            old(self).wf(),
        ensures
            final(self).wf(),
            final(self)@ == (if old(self)@.backlog.len() == 0 || old(self)@.queued_generation != Some(
                generation,
            ) {
                LoaderView {
                    backlog: enqueue(old(self)@.backlog, unread@, busy(old(self)@)),
                    queued_generation: Some(generation),
                    ..old(self)@
                }
            } else {
                old(self)@
            }),
    {
        let refill = self.backlog.is_empty() || match self.queued_generation {
            Some(g) => g != generation,
            None => true,
        };
        if refill {
            self.enqueue_backlog(unread, true);
            self.queued_generation = Some(generation);
        }
    }

    /// Starts the worker if it is not running, not held, and has something to
    /// read; returns the generation it runs under.
    pub fn try_start_worker(&mut self) -> (started: Option<u64>)
        requires
            old(self).wf(),
        ensures
            final(self).wf(),
            started == (if old(self)@.worker_running || old(self)@.hold || (old(self)@.priority.len()
                == 0 && old(self)@.backlog.len() == 0) {
                None
            } else {
                Some(old(self)@.generation)
            }),
            final(self)@ == (LoaderView {
                worker_running: old(self)@.worker_running || started is Some,
                ..old(self)@
            }),
    {
        if self.worker_running || self.hold {
            return None;
        }
        if self.priority.is_empty() && self.backlog.is_empty() {
            return None;
        }
        self.worker_running = true;
        Some(self.generation)
    }

    /// The worker of generation `generation` is stale: a reset moved on.
    pub fn is_stale(&self, generation: u64) -> (r: bool)
        ensures
            r == (self@.generation != generation),
    {
        self.generation != generation
    }

    /// A held worker stops.
    pub fn pause_if_held(&mut self) -> (paused: bool)
        ensures
            old(self).wf() ==> final(self).wf(),
            paused == old(self)@.hold,
            final(self)@ == (LoaderView {
                worker_running: old(self)@.worker_running && !paused,
                ..old(self)@
            }),
    {
        if self.hold {
            self.worker_running = false;
            return true;
        }
        false
    }

    /// The next chunk: up to `size` prioritised apps, then the backlog.
    pub fn drain_chunk(&mut self, size: usize) -> (chunk: Vec<u32>)
        requires
            old(self).wf(),
        ensures
            final(self).wf(),
            ({
                let p = old(self)@.priority;
                let b = old(self)@.backlog;
                let from_p = if size < p.len() { size as int } else { p.len() as int };
                let rest = size - from_p;
                let from_b = if rest < b.len() { rest } else { b.len() as int };
                &&& chunk@ == p.take(from_p) + b.take(from_b)
                &&& final(self)@ == (LoaderView {
                    priority: p.skip(from_p),
                    backlog: b.skip(from_b),
                    ..old(self)@
                })
            }),
    {
        let ghost p0 = self@.priority;
        let ghost b0 = self@.backlog;
        let mut chunk = self.priority.drain_front(size);
        if chunk.len() < size {
            let remaining = size - chunk.len();
            let mut more = self.backlog.drain_front(remaining);
            chunk.append(&mut more);
        } else {
            proof {
                assert(self.backlog@.take(0) =~= Seq::<u32>::empty());
                assert(self.backlog@.skip(0) =~= self.backlog@);
                assert(chunk@ + self.backlog@.take(0) =~= chunk@);
            }
        }
        proof {
            let from_p = if size < p0.len() { size as int } else { p0.len() as int };
            let rest = size - from_p;
            let from_b = if rest < b0.len() { rest } else { b0.len() as int };
            lemma_apart_skip(p0, b0, from_p, from_b);
        }
        chunk
    }

    /// The chunk is being asked for: its apps are in flight. Returns the
    /// write marks of the chunk's dirty apps, in chunk order, and whether
    /// Steam's cached counts must be bypassed (a rescan, or a dirty app).
    pub fn begin_request(&mut self, chunk: &Vec<u32>) -> (r: (Vec<(u32, u64)>, bool))
        requires
            old(self).wf(),
        ensures
            final(self).wf(),
            final(self)@ == (LoaderView {
                in_flight: old(self)@.in_flight.union(chunk@.to_set()),
                ..old(self)@
            }),
            r.0@ == dirty_marks(chunk@, old(self)@.dirty),
            r.1 == (old(self)@.force || r.0@.len() > 0),
    {
        let ghost start = self.in_flight@;
        let mut marked: Vec<(u32, u64)> = Vec::new();
        let mut i: usize = 0;
        while i < chunk.len()
            invariant
                self.wf(),
                i <= chunk@.len(),
                self.in_flight@ == start.union(chunk@.take(i as int).to_set()),
                marked@ == dirty_marks(chunk@.take(i as int), self.dirty@),
                self.dirty@ == old(self)@.dirty,
                self.priority@ == old(self)@.priority,
                self.backlog@ == old(self)@.backlog,
                self.generation == old(self)@.generation,
                self.worker_running == old(self)@.worker_running,
                self.queued_generation == old(self)@.queued_generation,
                self.force == old(self)@.force,
                self.retried@ == old(self)@.retried,
                self.transport_failures == old(self)@.transport_failures,
                self.hold == old(self)@.hold,
                self.marks == old(self)@.marks,
                start == old(self)@.in_flight,
            decreases chunk.len() - i,
        {
            let id = chunk[i];
            self.in_flight.insert(id);
            proof {
                assert(chunk@.take(i + 1) =~= chunk@.take(i as int).push(id));
                lemma_push_to_set(chunk@.take(i as int), id);
                assert(self.in_flight@ =~= start.union(chunk@.take(i + 1).to_set()));
            }
            proof {
                assert(chunk@.take(i + 1).drop_last() =~= chunk@.take(i as int));
                assert(chunk@.take(i + 1).last() == id);
            }
            match self.dirty.get(&id) {
                Some(mark) => {
                    marked.push((id, *mark));
                },
                None => {},
            }
            i = i + 1;
        }
        assert(chunk@.take(chunk@.len() as int) =~= chunk@);
        let force = self.force || marked.len() > 0;
        (marked, force)
    }

    /// The chunk's request came back (or failed): its apps are no longer in flight.
    pub fn end_request(&mut self, chunk: &Vec<u32>)
        requires
            old(self).wf(),
        ensures
            final(self).wf(),
            final(self)@ == (LoaderView {
                in_flight: old(self)@.in_flight.difference(chunk@.to_set()),
                ..old(self)@
            }),
    {
        let ghost start = self.in_flight@;
        let mut i: usize = 0;
        while i < chunk.len()
            invariant
                self.wf(),
                i <= chunk@.len(),
                self.in_flight@ == start.difference(chunk@.take(i as int).to_set()),
                self.dirty@ == old(self)@.dirty,
                self.priority@ == old(self)@.priority,
                self.backlog@ == old(self)@.backlog,
                self.generation == old(self)@.generation,
                self.worker_running == old(self)@.worker_running,
                self.queued_generation == old(self)@.queued_generation,
                self.force == old(self)@.force,
                self.retried@ == old(self)@.retried,
                self.transport_failures == old(self)@.transport_failures,
                self.hold == old(self)@.hold,
                self.marks == old(self)@.marks,
                start == old(self)@.in_flight,
            decreases chunk.len() - i,
        {
            let id = chunk[i];
            self.in_flight.remove(&id);
            proof {
                assert(chunk@.take(i + 1) =~= chunk@.take(i as int).push(id));
                lemma_push_to_set(chunk@.take(i as int), id);
                assert(self.in_flight@ =~= start.difference(chunk@.take(i + 1).to_set()));
            }
            i = i + 1;
        }
        assert(chunk@.take(chunk@.len() as int) =~= chunk@);
    }

    /// A request got through: the failure streak ends.
    pub fn transport_succeeded(&mut self)
        ensures
            old(self).wf() ==> final(self).wf(),
            final(self)@ == (LoaderView { transport_failures: 0, ..old(self)@ }),
    {
        self.transport_failures = 0;
    }

    /// A request failed: its apps go back on the backlog (unless
    /// prioritised). Says whether this was the second failure in a row, when
    /// the sweep is to be abandoned.
    pub fn transport_failed(&mut self, chunk: &Vec<u32>) -> (give_up: bool)
        requires
            old(self).wf(),
            old(self)@.transport_failures < u32::MAX,
        ensures
            final(self).wf(),
            final(self)@ == (LoaderView {
                backlog: enqueue(old(self)@.backlog, chunk@, old(self)@.priority.to_set()),
                transport_failures: (old(self)@.transport_failures + 1) as u32,
                ..old(self)@
            }),
            give_up == (old(self)@.transport_failures + 1 >= 2),
    {
        self.enqueue_backlog(chunk, false);
        self.transport_failures = self.transport_failures + 1;
        self.transport_failures >= 2
    }

    /// Gives the sweep up: the running worker is forgotten and nothing is in
    /// flight; the queues stay for a later sweep.
    pub fn abandon_sweep(&mut self)
        ensures
            old(self).wf() ==> final(self).wf(),
            final(self)@ == (LoaderView {
                generation: old(self)@.generation.wrapping_add(1),
                in_flight: Set::empty(),
                worker_running: false,
                force: false,
                retried: Set::empty(),
                transport_failures: 0,
                ..old(self)@
            }),
    {
        self.generation = self.generation.wrapping_add(1);
        self.in_flight = HashSet::new();
        self.worker_running = false;
        self.force = false;
        self.retried = HashSet::new();
        self.transport_failures = 0;
    }

    /// Nothing left to read: the worker stops; says whether the sweep was a rescan.
    pub fn finish_sweep(&mut self) -> (was_forced: bool)
        ensures
            old(self).wf() ==> final(self).wf(),
            was_forced == old(self)@.force,
            final(self)@ == (LoaderView {
                worker_running: false,
                retried: Set::empty(),
                transport_failures: 0,
                force: false,
                ..old(self)@
            }),
    {
        self.worker_running = false;
        self.retried = HashSet::new();
        self.transport_failures = 0;
        let was_forced = self.force;
        self.force = false;
        was_forced
    }

    /// An answer settles a dirty app only if it was asked for under the app's
    /// latest write and the answer covers it.
    pub fn settle_marks(&mut self, marked: &Vec<(u32, u64)>, answered: &Vec<u32>)
        ensures
            old(self).wf() ==> final(self).wf(),
            final(self)@ == (LoaderView {
                dirty: settled(old(self)@.dirty, marked@, answered@),
                ..old(self)@
            }),
    {
        let mut i: usize = 0;
        while i < marked.len()
            invariant
                i <= marked@.len(),
                self.dirty@ == settled(old(self)@.dirty, marked@.take(i as int), answered@),
                old(self).wf() ==> self.wf(),
                self.priority@ == old(self)@.priority,
                self.backlog@ == old(self)@.backlog,
                self.in_flight@ == old(self)@.in_flight,
                self.generation == old(self)@.generation,
                self.worker_running == old(self)@.worker_running,
                self.queued_generation == old(self)@.queued_generation,
                self.force == old(self)@.force,
                self.retried@ == old(self)@.retried,
                self.transport_failures == old(self)@.transport_failures,
                self.hold == old(self)@.hold,
                self.marks == old(self)@.marks,
                self.priority == old(self).priority,
                self.backlog == old(self).backlog,
            decreases marked.len() - i,
        {
            let (id, mark) = marked[i];
            let current = match self.dirty.get(&id) {
                Some(m) => *m == mark,
                None => false,
            };
            let mut covered = false;
            let mut j: usize = 0;
            while j < answered.len() && !covered
                invariant
                    j <= answered@.len(),
                    covered == answered@.take(j as int).contains(id),
                decreases answered.len() - j, if covered { 0int } else { 1int },
            {
                proof {
                    assert(answered@.take(j + 1) =~= answered@.take(j as int).push(answered@[j as int]));
                    lemma_push_to_set(answered@.take(j as int), answered@[j as int]);
                    assert(answered@.take(j + 1).to_set().contains(id) == answered@.take(j + 1).contains(id));
                    assert(answered@.take(j as int).to_set().contains(id) == answered@.take(j as int).contains(id));
                }
                if answered[j] == id {
                    covered = true;
                }
                j = j + 1;
            }
            proof {
                if !covered {
                    assert(answered@.take(answered@.len() as int) =~= answered@);
                } else {
                    let k = choose|k: int| 0 <= k < answered@.take(j as int).len() && answered@.take(j as int)[k] == id;
                    assert(answered@[k] == id);
                }
                assert(marked@.take(i + 1).drop_last() =~= marked@.take(i as int));
            }
            if current && covered {
                self.dirty.remove(&id);
            }
            i = i + 1;
        }
        assert(marked@.take(marked@.len() as int) =~= marked@);
    }

    /// Unanswered apps are read once more (unless prioritised, when their
    /// fresh request covers them); those already retried are returned, to be
    /// settled as having no achievements, and stop being dirty.
    pub fn requeue_once(&mut self, unanswered: &Vec<u32>) -> (exhausted: Vec<u32>)
        requires
            old(self).wf(),
        ensures
            final(self).wf(),
            ({
                let r = requeue(old(self)@.retried, old(self)@.backlog, old(self)@.priority.to_set(), unanswered@);
                &&& exhausted@ == r.2
                &&& final(self)@ == (LoaderView {
                    retried: r.0,
                    backlog: r.1,
                    dirty: old(self)@.dirty.remove_keys(r.2.to_set()),
                    ..old(self)@
                })
            }),
    {
        let ghost pset = self@.priority.to_set();
        let ghost start_retried = self@.retried;
        let ghost start_backlog = self@.backlog;
        let ghost start_dirty = self@.dirty;
        let mut exhausted: Vec<u32> = Vec::new();
        let mut i: usize = 0;
        while i < unanswered.len()
            invariant
                self.wf(),
                i <= unanswered@.len(),
                pset == self.priority@.to_set(),
                ({
                    let r = requeue(start_retried, start_backlog, pset, unanswered@.take(i as int));
                    &&& self.retried@ == r.0
                    &&& self.backlog@ == r.1
                    &&& exhausted@ == r.2
                }),
                self.dirty@ == start_dirty,
                start_retried == old(self)@.retried,
                start_backlog == old(self)@.backlog,
                start_dirty == old(self)@.dirty,
                pset == old(self)@.priority.to_set(),
                self@ == (LoaderView { retried: self@.retried, backlog: self@.backlog, ..old(self)@ }),
            decreases unanswered.len() - i,
        {
            let id = unanswered[i];
            proof {
                assert(unanswered@.take(i + 1).drop_last() =~= unanswered@.take(i as int));
                assert(unanswered@.take(i + 1).last() == id);
            }
            if !self.priority.contains(id) {
                if self.retried.insert(id) {
                    self.backlog.insert(id);
                } else {
                    exhausted.push(id);
                }
            }
            i = i + 1;
        }
        assert(unanswered@.take(unanswered@.len() as int) =~= unanswered@);
        let ghost before_dirty = self.dirty@;
        let ghost mid = self@;
        let mut k: usize = 0;
        while k < exhausted.len()
            invariant
                k <= exhausted@.len(),
                self.dirty@ == before_dirty.remove_keys(exhausted@.take(k as int).to_set()),
                self.wf(),
                before_dirty == mid.dirty,
                self@ == (LoaderView { dirty: self@.dirty, ..mid }),
            decreases exhausted.len() - k,
        {
            let id = exhausted[k];
            self.dirty.remove(&id);
            proof {
                assert(exhausted@.take(k + 1) =~= exhausted@.take(k as int).push(id));
                lemma_push_to_set(exhausted@.take(k as int), id);
                assert(self.dirty@ =~= before_dirty.remove_keys(exhausted@.take(k + 1).to_set()));
            }
            k = k + 1;
        }
        assert(exhausted@.take(exhausted@.len() as int) =~= exhausted@);
        exhausted
    }

    /// Counts found in Steam's own files were applied for `applied`: neither
    /// queue needs to read them any more.
    pub fn drop_applied(&mut self, applied: &HashSet<u32>)
        requires
            old(self).wf(),
        ensures
            final(self).wf(),
            final(self)@ == (LoaderView {
                priority: without(old(self)@.priority, applied@),
                backlog: without(old(self)@.backlog, applied@),
                ..old(self)@
            }),
    {
        proof {
            lemma_apart_without(self@.priority, self@.backlog, applied@);
        }
        self.priority.retain_not_in(applied);
        self.backlog.retain_not_in(applied);
    }
}

/// The write marks of the dirty apps of a chunk, in chunk order.
pub open spec fn dirty_marks(chunk: Seq<u32>, dirty: Map<u32, u64>) -> Seq<(u32, u64)>
    decreases chunk.len(),
{
    if chunk.len() == 0 {
        Seq::empty()
    } else {
        let rest = dirty_marks(chunk.drop_last(), dirty);
        let id = chunk.last();
        if dirty.contains_key(id) {
            rest.push((id, dirty[id]))
        } else {
            rest
        }
    }
}

/// `dirty` after the answers for `marked`: an app whose mark is still its
/// latest and whose answer came is settled.
pub open spec fn settled(dirty: Map<u32, u64>, marked: Seq<(u32, u64)>, answered: Seq<u32>) -> Map<
    u32,
    u64,
>
    decreases marked.len(),
{
    if marked.len() == 0 {
        dirty
    } else {
        let d = settled(dirty, marked.drop_last(), answered);
        let (id, mark) = marked.last();
        if d.contains_key(id) && d[id] == mark && answered.contains(id) {
            d.remove(id)
        } else {
            d
        }
    }
}

/// An answer never settles a write made after its request was sent: an app
/// whose latest write number is not among the numbers the request carried
/// stays dirty, with the same number.
pub proof fn lemma_later_write_stays_dirty(
    dirty: Map<u32, u64>,
    marked: Seq<(u32, u64)>,
    answered: Seq<u32>,
    id: u32,
)
    requires
        dirty.contains_key(id),
        !marked.contains((id, dirty[id])),
    ensures
        settled(dirty, marked, answered).contains_key(id),
        settled(dirty, marked, answered)[id] == dirty[id],
    decreases marked.len(),
{
    if marked.len() > 0 {
        assert(!marked.drop_last().contains((id, dirty[id]))) by {
            if marked.drop_last().contains((id, dirty[id])) {
                let k = choose|k: int| 0 <= k < marked.drop_last().len() && marked.drop_last()[k] == (id, dirty[id]);
                assert(marked[k] == (id, dirty[id]));
            }
        }
        lemma_later_write_stays_dirty(dirty, marked.drop_last(), answered, id);
        assert(marked.last() != (id, dirty[id])) by {
            if marked.last() == (id, dirty[id]) {
                assert(marked[marked.len() - 1] == (id, dirty[id]));
            }
        }
    }
}

/// Retrying unanswered apps once: the retried set, the backlog, and the apps
/// already retried before, in order.
pub open spec fn requeue(retried: Set<u32>, backlog: Seq<u32>, priority: Set<u32>, unanswered: Seq<u32>) -> (
    Set<u32>,
    Seq<u32>,
    Seq<u32>,
)
    decreases unanswered.len(),
{
    if unanswered.len() == 0 {
        (retried, backlog, Seq::empty())
    } else {
        let r = requeue(retried, backlog, priority, unanswered.drop_last());
        let id = unanswered.last();
        if priority.contains(id) {
            r
        } else if !r.0.contains(id) {
            (r.0.insert(id), if r.1.contains(id) { r.1 } else { r.1.push(id) }, r.2)
        } else {
            (r.0, r.1, r.2.push(id))
        }
    }
}

/// Steam's answer for `app_id` among `counts` (`(app id, total, unlocked)`
/// rows): the last row for it.
pub open spec fn answer_for(counts: Seq<(u32, u32, u32)>, app_id: u32) -> Option<(u32, u32)>
    decreases counts.len(),
{
    if counts.len() == 0 {
        None
    } else if counts.last().0 == app_id {
        Some((counts.last().1, counts.last().2))
    } else {
        answer_for(counts.drop_last(), app_id)
    }
}

/// The games after writing the counts Steam answered for `app_id`, and
/// whether it went unanswered while its counts are unknown.
pub open spec fn answer_step(apps: Seq<AppRecord>, app_id: u32, counts: Seq<(u32, u32, u32)>) -> (
    Seq<AppRecord>,
    bool,
) {
    let p = last_position(apps, app_id, apps.len() as int);
    match answer_for(counts, app_id) {
        Some(a) => (
            match p {
                Some(p) => apps.update(p, with_counts(apps[p], a.0, a.1)),
                None => apps,
            },
            false,
        ),
        None => (apps, p matches Some(p) && !apps[p].achievements_loaded),
    }
}

/// The games after the answers for the first `n` apps of `chunk`, and those
/// of them left unanswered, in order.
pub open spec fn answers_upto(
    apps: Seq<AppRecord>,
    chunk: Seq<u32>,
    counts: Seq<(u32, u32, u32)>,
    n: int,
) -> (Seq<AppRecord>, Seq<u32>)
    decreases n,
{
    if n <= 0 {
        (apps, Seq::empty())
    } else {
        let (a, u) = answers_upto(apps, chunk, counts, n - 1);
        let (a2, missed) = answer_step(a, chunk[n - 1], counts);
        (a2, if missed { u.push(chunk[n - 1]) } else { u })
    }
}

proof fn lemma_answers_keep_len(apps: Seq<AppRecord>, chunk: Seq<u32>, counts: Seq<(u32, u32, u32)>, n: int)
    requires
        0 <= n <= chunk.len(),
    ensures
        answers_upto(apps, chunk, counts, n).0.len() == apps.len(),
    decreases n,
{
    if n > 0 {
        lemma_answers_keep_len(apps, chunk, counts, n - 1);
        let a = answers_upto(apps, chunk, counts, n - 1).0;
        lemma_position_in_range(a, chunk[n - 1], a.len() as int);
    }
}

proof fn lemma_position_in_range(apps: Seq<AppRecord>, id: u32, n: int)
    requires
        0 <= n <= apps.len(),
    ensures
        last_position(apps, id, n) matches Some(p) ==> 0 <= p < n,
    decreases n,
{
    if n > 0 {
        lemma_position_in_range(apps, id, n - 1);
    }
}

/// The rows of `counts` by app id, the last row for an id winning.
fn answers_by_id(counts: &Vec<(u32, u32, u32)>) -> (m: HashMap<u32, (u32, u32)>)
    ensures
        forall|id: u32|
            (#[trigger] m@.contains_key(id) ==> answer_for(counts@, id) == Some(m@[id])) && (
            !m@.contains_key(id) ==> answer_for(counts@, id) is None),
{
    let mut m: HashMap<u32, (u32, u32)> = HashMap::new();
    let mut i: usize = 0;
    while i < counts.len()
        invariant
            i <= counts@.len(),
            forall|id: u32|
                (#[trigger] m@.contains_key(id) ==> answer_for(counts@.take(i as int), id) == Some(
                    m@[id],
                )) && (!m@.contains_key(id) ==> answer_for(counts@.take(i as int), id) is None),
        decreases counts.len() - i,
    {
        let (id, total, unlocked) = counts[i];
        m.insert(id, (total, unlocked));
        proof {
            assert(counts@.take(i + 1).drop_last() =~= counts@.take(i as int));
            assert(counts@.take(i + 1).last() == (id, total, unlocked));
        }
        i = i + 1;
    }
    assert(counts@.take(counts@.len() as int) =~= counts@);
    m
}

/// Writes Steam's answers for `chunk` into the games and returns the apps it
/// did not answer for whose counts are still unknown: a zero would stick as a
/// real count.
pub fn apply_counts(
    index: &mut AppIndex,
    apps: &mut Vec<AppRecord>,
    chunk: &Vec<u32>,
    counts: &Vec<(u32, u32, u32)>,
) -> (unanswered: Vec<u32>)
    requires
        old(apps)@.len() <= u32::MAX,
        tracks(old(index)@, old(apps)@),
    ensures
        final(index)@.1 == old(index)@.1,
        tracks(final(index)@, final(apps)@),
        final(apps)@ == answers_upto(old(apps)@, chunk@, counts@, chunk@.len() as int).0,
        unanswered@ == answers_upto(old(apps)@, chunk@, counts@, chunk@.len() as int).1,
{
    let ghost start = apps@;
    let response = answers_by_id(counts);
    let mut unanswered: Vec<u32> = Vec::new();
    let mut i: usize = 0;
    while i < chunk.len()
        invariant
            i <= chunk@.len(),
            apps@.len() == start.len(),
            start.len() <= u32::MAX,
            tracks(index@, apps@),
            index@.1 == old(index)@.1,
            forall|id: u32|
                (#[trigger] response@.contains_key(id) ==> answer_for(counts@, id) == Some(
                    response@[id],
                )) && (!response@.contains_key(id) ==> answer_for(counts@, id) is None),
            apps@ == answers_upto(start, chunk@, counts@, i as int).0,
            unanswered@ == answers_upto(start, chunk@, counts@, i as int).1,
        decreases chunk.len() - i,
    {
        let app_id = chunk[i];
        proof {
            lemma_answers_keep_len(start, chunk@, counts@, i + 1);
            lemma_position_in_range(apps@, app_id, apps@.len() as int);
        }
        match response.get(&app_id) {
            Some(answer) => {
                let (total, unlocked) = *answer;
                index.load_counts(apps, app_id, total, unlocked, true);
            },
            None => {
                let position = index.get(apps, app_id);
                match position {
                    Some(p) => {
                        if !apps[p].achievements_loaded {
                            unanswered.push(app_id);
                        }
                    },
                    None => {},
                }
            },
        }
        i = i + 1;
    }
    unanswered
}

/// The games after giving each of `app_ids` whose counts are still unknown no
/// achievements at all: Steam answered for none of them twice.
pub open spec fn settled_upto(apps: Seq<AppRecord>, app_ids: Seq<u32>, n: int) -> Seq<AppRecord>
    decreases n,
{
    if n <= 0 {
        apps
    } else {
        let a = settled_upto(apps, app_ids, n - 1);
        match last_position(a, app_ids[n - 1], a.len() as int) {
            Some(p) => if !a[p].achievements_loaded {
                a.update(p, with_counts(a[p], 0, 0))
            } else {
                a
            },
            None => a,
        }
    }
}

proof fn lemma_settled_keep_len(apps: Seq<AppRecord>, app_ids: Seq<u32>, n: int)
    requires
        0 <= n <= app_ids.len(),
    ensures
        settled_upto(apps, app_ids, n).len() == apps.len(),
    decreases n,
{
    if n > 0 {
        lemma_settled_keep_len(apps, app_ids, n - 1);
        let a = settled_upto(apps, app_ids, n - 1);
        lemma_position_in_range(a, app_ids[n - 1], a.len() as int);
    }
}

/// Records apps Steam never answered for as having no achievements.
pub fn settle_unknown(index: &mut AppIndex, apps: &mut Vec<AppRecord>, app_ids: &Vec<u32>)
    requires
        old(apps)@.len() <= u32::MAX,
        tracks(old(index)@, old(apps)@),
    ensures
        final(index)@.1 == old(index)@.1,
        tracks(final(index)@, final(apps)@),
        final(apps)@ == settled_upto(old(apps)@, app_ids@, app_ids@.len() as int),
{
    let ghost start = apps@;
    let mut i: usize = 0;
    while i < app_ids.len()
        invariant
            i <= app_ids@.len(),
            apps@.len() == start.len(),
            start.len() <= u32::MAX,
            tracks(index@, apps@),
            index@.1 == old(index)@.1,
            apps@ == settled_upto(start, app_ids@, i as int),
        decreases app_ids.len() - i,
    {
        proof {
            lemma_settled_keep_len(start, app_ids@, i + 1);
        }
        index.load_counts(apps, app_ids[i], 0, 0, false);
        i = i + 1;
    }
}

/// The games after applying counts found in Steam's own files for the first
/// `n` rows of `counts`, skipping apps written to since (`dirty`) and games
/// already read, and the apps whose counts were written.
pub open spec fn local_upto(
    apps: Seq<AppRecord>,
    counts: Seq<(u32, u32, u32)>,
    dirty: Map<u32, u64>,
    n: int,
) -> (Seq<AppRecord>, Set<u32>)
    decreases n,
{
    if n <= 0 {
        (apps, Set::empty())
    } else {
        let (a, applied) = local_upto(apps, counts, dirty, n - 1);
        let (id, total, unlocked) = counts[n - 1];
        if dirty.contains_key(id) {
            (a, applied)
        } else {
            match last_position(a, id, a.len() as int) {
                Some(p) => if !a[p].achievements_loaded {
                    (a.update(p, with_counts(a[p], total, unlocked)), applied.insert(id))
                } else {
                    (a, applied)
                },
                None => (a, applied),
            }
        }
    }
}

proof fn lemma_local_keep_len(apps: Seq<AppRecord>, counts: Seq<(u32, u32, u32)>, dirty: Map<u32, u64>, n: int)
    requires
        0 <= n <= counts.len(),
    ensures
        local_upto(apps, counts, dirty, n).0.len() == apps.len(),
    decreases n,
{
    if n > 0 {
        lemma_local_keep_len(apps, counts, dirty, n - 1);
        let a = local_upto(apps, counts, dirty, n - 1).0;
        lemma_position_in_range(a, counts[n - 1].0, a.len() as int);
    }
}

proof fn lemma_local_applied_finite(
    apps: Seq<AppRecord>,
    counts: Seq<(u32, u32, u32)>,
    dirty: Map<u32, u64>,
    n: int,
)
    ensures
        local_upto(apps, counts, dirty, n).1.finite(),
    decreases n,
{
    if n > 0 {
        lemma_local_applied_finite(apps, counts, dirty, n - 1);
    }
}

impl AchievementLoader {
    /// Applies counts found in Steam's own files (`(app id, total, unlocked)`
    /// rows) to the games still unread, unless a rescan is asking Steam for
    /// every game again; then lifts the hold on reading. Returns whether the
    /// worker is to be started (the hold was on) and whether any counts were
    /// written (the files can settle the whole library, and then no sweep
    /// ever runs).
    pub fn apply_local(
        &mut self,
        index: &mut AppIndex,
        apps: &mut Vec<AppRecord>,
        counts: &Vec<(u32, u32, u32)>,
    ) -> (r: (bool, bool))
        requires
            old(self).wf(),
            old(apps)@.len() <= u32::MAX,
            tracks(old(index)@, old(apps)@),
        ensures
            final(self).wf(),
            final(index)@.1 == old(index)@.1,
            tracks(final(index)@, final(apps)@),
            r.0 == old(self)@.hold,
            old(self)@.force ==> {
                &&& final(apps)@ == old(apps)@
                &&& !r.1
                &&& final(self)@ == (LoaderView { hold: false, ..old(self)@ })
            },
            !old(self)@.force ==> ({
                let (a, applied) = local_upto(
                    old(apps)@,
                    counts@,
                    old(self)@.dirty,
                    counts@.len() as int,
                );
                &&& final(apps)@ == a
                &&& r.1 == !applied.is_empty()
                &&& final(self)@ == (LoaderView {
                    priority: without(old(self)@.priority, applied),
                    backlog: without(old(self)@.backlog, applied),
                    hold: false,
                    ..old(self)@
                })
            }),
    {
        if self.force {
            let kick = self.release_sweep();
            return (kick, false);
        }
        let ghost start = apps@;
        let ghost dirty = self@.dirty;
        let mut applied: HashSet<u32> = HashSet::new();
        let mut i: usize = 0;
        while i < counts.len()
            invariant
                i <= counts@.len(),
                apps@.len() == start.len(),
                start.len() <= u32::MAX,
                tracks(index@, apps@),
                index@.1 == old(index)@.1,
                self@ == old(self)@,
                self.wf(),
                dirty == self@.dirty,
                apps@ == local_upto(start, counts@, dirty, i as int).0,
                applied@ == local_upto(start, counts@, dirty, i as int).1,
            decreases counts.len() - i,
        {
            let (app_id, total, unlocked) = counts[i];
            proof {
                lemma_local_keep_len(start, counts@, dirty, i + 1);
                lemma_position_in_range(apps@, app_id, apps@.len() as int);
            }
            if !self.dirty.contains_key(&app_id) {
                let was = index.load_counts(apps, app_id, total, unlocked, false);
                match was {
                    Some(false) => {
                        applied.insert(app_id);
                    },
                    _ => {},
                }
            }
            i = i + 1;
        }
        proof {
            lemma_local_applied_finite(start, counts@, dirty, counts@.len() as int);
            if applied@.len() == 0 {
                assert(applied@ =~= Set::<u32>::empty());
            } else {
                assert(applied@.len() > 0);
            }
        }
        self.drop_applied(&applied);
        let kick = self.release_sweep();
        (kick, applied.len() > 0)
    }
}

/// Whether a game's counts are still to be read: not read yet, and not the
/// search placeholder.
pub open spec fn is_unread(app: AppRecord) -> bool {
    !app.achievements_loaded && !app.is_synthetic
}

/// The ids of the first `n` games whose counts are still to be read, in
/// list order.
pub open spec fn unread_upto(apps: Seq<AppRecord>, n: int) -> Seq<u32>
    decreases n,
{
    if n <= 0 {
        Seq::empty()
    } else if is_unread(apps[n - 1]) {
        unread_upto(apps, n - 1).push(apps[n - 1].app_id)
    } else {
        unread_upto(apps, n - 1)
    }
}

/// The ids of the games whose counts are still to be read, in list order:
/// what a sweep queues.
pub fn unread_ids(apps: &Vec<AppRecord>) -> (ids: Vec<u32>)
    ensures
        ids@ == unread_upto(apps@, apps@.len() as int),
{
    let mut ids: Vec<u32> = Vec::new();
    let mut i: usize = 0;
    while i < apps.len()
        invariant
            i <= apps@.len(),
            ids@ == unread_upto(apps@, i as int),
        decreases apps.len() - i,
    {
        if !apps[i].achievements_loaded && !apps[i].is_synthetic {
            ids.push(apps[i].app_id);
        }
        i = i + 1;
    }
    ids
}


} // verus!
