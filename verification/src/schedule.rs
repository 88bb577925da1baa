//! When each achievement of a timed unlock fires: evenly spaced, or at random
//! moments between the first and the last slot, kept a minimum gap apart.
use vstd::prelude::*;
use crate::sorting::{sort_times, time_leq};
use crate::text::str_equals;

verus! {

broadcast use vstd::seq_lib::group_to_multiset_ensures;

/// The spacing setting for evenly spaced unlocks.
pub const SPACING_EVEN: &'static str = "even";

/// The spacing setting for randomly spaced unlocks.
pub const SPACING_RANDOM: &'static str = "random";

/// Least distance between two randomly placed unlocks, unless the end of the
/// window caps it.
pub const MIN_GAP_MS: u64 = 2_000;

/// One xorshift64 step with the shifts 13, 7, 17.
pub open spec fn xorshift_step(x: u64) -> u64 {
    let a = x ^ (x << 13u64);
    let b = a ^ (a >> 7u64);
    b ^ (b << 17u64)
}

/// A draw below `upper` from a generator in state `state`: the value and the
/// next state. An empty range draws 0 and leaves the generator alone.
pub open spec fn draw_below(state: u64, upper: u64) -> (u64, u64) {
    if upper == 0 {
        (0, state)
    } else {
        let next = xorshift_step(state);
        (next % upper, next)
    }
}

/// The generator's state after `n` draws below `upper`.
pub open spec fn state_after_draws(state: u64, n: nat, upper: u64) -> u64
    decreases n,
{
    if n == 0 {
        state
    } else {
        draw_below(state_after_draws(state, (n - 1) as nat, upper), upper).1
    }
}

/// The first `n` draws below `upper`.
pub open spec fn draws(state: u64, n: nat, upper: u64) -> Seq<u64>
    decreases n,
{
    if n == 0 {
        Seq::empty()
    } else {
        draws(state, (n - 1) as nat, upper).push(
            draw_below(state_after_draws(state, (n - 1) as nat, upper), upper).0,
        )
    }
}

/// A small, seedable pseudo-random generator (xorshift64).
pub struct SeededRng {
    state: u64,
}

impl View for SeededRng {
    type V = u64;

    closed spec fn view(&self) -> u64 {
        self.state
    }
}

/// The system clock's reading, `std::time::SystemTime`, carried through
/// unopened.
#[verifier::external_type_specification]
#[verifier::external_body]
pub struct ExSystemTime(std::time::SystemTime);

/// `SystemTime::now`: the system clock's current reading. It depends on the
/// clock, so nothing is stated of it.
#[verifier::external_body]
fn clock_now() -> std::time::SystemTime {
    std::time::SystemTime::now()
}

/// `SystemTime::duration_since(UNIX_EPOCH)`: how long after the Unix epoch
/// `t` is, or `None` (its error) for a reading before the epoch. Nothing is
/// stated of the duration: `t` is a clock reading.
#[verifier::external_body]
fn since_unix_epoch(t: &std::time::SystemTime) -> Option<core::time::Duration> {
    t.duration_since(std::time::UNIX_EPOCH).ok()
}

/// `Duration::as_nanos`: the duration in whole nanoseconds. Nothing is
/// stated of the number: the durations passed here come from the clock.
#[verifier::external_body]
fn duration_nanos(d: &core::time::Duration) -> u128 {
    d.as_nanos()
}

impl SeededRng {
    /// A generator started from `seed`; the state is kept odd so it is never zero.
    pub fn from_seed(seed: u64) -> (rng: Self)
        ensures
            rng@ == seed | 1,
    {
        SeededRng { state: seed | 1 }
    }

    /// A generator seeded from the clock, or from a fixed constant when the
    /// clock reads before 1970.
    pub fn from_time() -> (rng: Self)
        ensures
            rng@ % 2 == 1,
    {
        let now = clock_now();
        let seed: u64 = match since_unix_epoch(&now) {
            Some(elapsed) => duration_nanos(&elapsed) as u64,
            None => 0x9E3779B97F4A7C15,
        };
        assert((seed | 1u64) % 2 == 1) by (bit_vector);
        SeededRng { state: seed | 1 }
    }

    /// The next 64 random bits.
    pub fn next_u64(&mut self) -> (r: u64)
        ensures
            r == xorshift_step(old(self)@),
            final(self)@ == r,
    {
        let mut x = self.state;
        x = x ^ (x << 13u64);
        x = x ^ (x >> 7u64);
        x = x ^ (x << 17u64);
        self.state = x;
        x
    }

    /// A number below `exclusive_upper`, or 0 (drawing nothing) when it is 0.
    pub fn next_u64_in(&mut self, exclusive_upper: u64) -> (r: u64)
        ensures
            (r, final(self)@) == draw_below(old(self)@, exclusive_upper),
    {
        if exclusive_upper == 0 {
            return 0;
        }
        self.next_u64() % exclusive_upper
    }
}

/// The evenly spaced schedule: `count` slots, the `i`-th at `(i + 1) * (total / count)`.
pub open spec fn linear_schedule(count: nat, total: u64) -> Seq<u64> {
    Seq::new(count, |i: int| ((i + 1) * (total as int / count as int)) as u64)
}

/// One step of the gap rule: a time too close to the one before it is pushed
/// back to a full gap after it, but never past `total`.
pub open spec fn gap_step(prev: u64, cur: u64, min_gap: u64, total: u64) -> u64 {
    if cur < prev + min_gap {
        if prev + min_gap < total {
            (prev + min_gap) as u64
        } else {
            total
        }
    } else {
        cur
    }
}

/// The first `n` times of `s` after the gap rule ran over them, front to back.
pub open spec fn spread_prefix(s: Seq<u64>, n: nat, min_gap: u64, total: u64) -> Seq<u64>
    decreases n,
{
    if n == 0 {
        Seq::empty()
    } else if n == 1 {
        seq![s[0]]
    } else {
        let p = spread_prefix(s, (n - 1) as nat, min_gap, total);
        p.push(gap_step(p.last(), s[n - 1], min_gap, total))
    }
}

/// The gap rule over all of `s`, with the last time then capped at `total`.
pub open spec fn spread(s: Seq<u64>, min_gap: u64, total: u64) -> Seq<u64> {
    let p = spread_prefix(s, s.len(), min_gap, total);
    if p.len() > 0 && p.last() > total {
        p.update(p.len() - 1, total)
    } else {
        p
    }
}

/// The random schedule for a generator in state `state`: the first and last
/// even slots stay, `count - 2` random times drawn between them are sorted in
/// between, and the gap rule runs over the lot.
pub open spec fn random_schedule(count: nat, total: u64, state: u64) -> Seq<u64> {
    let step = total as int / count as int;
    let first = step as u64;
    let last = (count * step) as u64;
    let interior = draws(state, (count - 2) as nat, (last - first) as u64).map_values(
        |x: u64| (first + x) as u64,
    );
    spread(seq![first] + interior.sort_by(time_leq()) + seq![last], MIN_GAP_MS, total)
}

/// What the gap rule guarantees of any list of times no later than `total`: the
/// first stays, none moves earlier or past `total`, the times never go down,
/// and each is a full gap after the one before it unless it sits at `total`.
pub proof fn lemma_spread_shape(s: Seq<u64>, min_gap: u64, total: u64)
    requires
        forall|i: int| 0 <= i < s.len() ==> s[i] <= total,
        total + min_gap <= u64::MAX,
    ensures
        spread(s, min_gap, total).len() == s.len(),
        s.len() > 0 ==> spread(s, min_gap, total)[0] == s[0],
        forall|i: int| 0 <= i < s.len() ==> s[i] <= #[trigger] spread(s, min_gap, total)[i] <= total,
        forall|i: int|
            1 <= i < s.len() ==> spread(s, min_gap, total)[i - 1] <= #[trigger] spread(
                s,
                min_gap,
                total,
            )[i],
        forall|i: int|
            1 <= i < s.len() ==> (spread(s, min_gap, total)[i - 1] + min_gap <= #[trigger] spread(
                s,
                min_gap,
                total,
            )[i] || spread(s, min_gap, total)[i] == total),
{
    lemma_spread_prefix_shape(s, s.len(), min_gap, total);
}

proof fn lemma_spread_prefix_shape(s: Seq<u64>, n: nat, min_gap: u64, total: u64)
    requires
        n <= s.len(),
        forall|i: int| 0 <= i < s.len() ==> s[i] <= total,
        total + min_gap <= u64::MAX,
    ensures
        spread_prefix(s, n, min_gap, total).len() == n,
        n > 0 ==> spread_prefix(s, n, min_gap, total)[0] == s[0],
        forall|i: int|
            0 <= i < n ==> s[i] <= #[trigger] spread_prefix(s, n, min_gap, total)[i] <= total,
        forall|i: int|
            1 <= i < n ==> spread_prefix(s, n, min_gap, total)[i - 1] <= #[trigger] spread_prefix(
                s,
                n,
                min_gap,
                total,
            )[i],
        forall|i: int|
            1 <= i < n ==> (spread_prefix(s, n, min_gap, total)[i - 1] + min_gap
                <= #[trigger] spread_prefix(s, n, min_gap, total)[i] || spread_prefix(
                s,
                n,
                min_gap,
                total,
            )[i] == total),
    decreases n,
{
    if n > 1 {
        lemma_spread_prefix_shape(s, (n - 1) as nat, min_gap, total);
    }
}

/// Runs the gap rule over `times` in place.
fn enforce_min_gap(times: &mut Vec<u64>, min_gap: u64, total_ms: u64)
    requires
        forall|i: int| 0 <= i < old(times)@.len() ==> old(times)@[i] + min_gap <= u64::MAX,
        total_ms + min_gap <= u64::MAX,
    ensures
        final(times)@ == spread(old(times)@, min_gap, total_ms),
{
    let ghost s = times@;
    let n = times.len();
    if n == 0 {
        assert(spread_prefix(s, 0, min_gap, total_ms) =~= s);
        return;
    }
    let mut i: usize = 1;
    assert(times@.subrange(0, 1) =~= spread_prefix(s, 1, min_gap, total_ms));
    while i < n
        invariant
            1 <= i <= n,
            n == s.len(),
            times@.len() == n,
            times@.subrange(0, i as int) =~= spread_prefix(s, i as nat, min_gap, total_ms),
            forall|k: int| i <= k < n ==> times@[k] == s[k],
            forall|k: int| 0 <= k < n ==> s[k] + min_gap <= u64::MAX,
            forall|k: int| 0 <= k < i ==> times@[k] + min_gap <= u64::MAX,
            total_ms + min_gap <= u64::MAX,
        decreases n - i,
    {
        let prev = times[i - 1];
        let cur = times[i];
        proof {
            assert(times@.subrange(0, i as int)[i - 1] == prev);
        }
        if cur < prev + min_gap {
            let pushed = prev + min_gap;
            let v = if pushed < total_ms { pushed } else { total_ms };
            times.set(i, v);
        }
        assert(times@.subrange(0, i + 1) =~= times@.subrange(0, i as int).push(times@[i as int]));
        i = i + 1;
    }
    assert(times@.subrange(0, n as int) =~= times@);
    let last = times[n - 1];
    if last > total_ms {
        times.set(n - 1, total_ms);
    }
}

/// The random schedule drawn from `rng`.
fn random_times(count: usize, total_ms: u64, rng: SeededRng) -> (out: Vec<u64>)
    requires
        count > 2,
        total_ms + MIN_GAP_MS <= u64::MAX,
    ensures
        out@ == random_schedule(count as nat, total_ms, rng@),
{
    let mut rng = rng;
    let ghost start = rng@;
    let step = total_ms / count as u64;
    proof {
        assert(count * step <= total_ms) by (nonlinear_arith)
            requires
                step == total_ms as int / count as int,
                count > 0,
        ;
        assert(step <= count * step) by (nonlinear_arith)
            requires
                count > 0,
                step >= 0,
        ;
    }
    let first = step;
    let last = count as u64 * step;
    let upper = last - first;
    let interior_n = count - 2;
    let mut interior: Vec<u64> = Vec::new();
    let mut k: usize = 0;
    while k < interior_n
        invariant
            k <= interior_n,
            interior_n == count - 2,
            first + upper == last,
            last <= total_ms,
            rng@ == state_after_draws(start, k as nat, upper),
            interior@ == draws(start, k as nat, upper).map_values(|x: u64| (first + x) as u64),
        decreases interior_n - k,
    {
        let ghost before = rng@;
        let d = rng.next_u64_in(upper);
        proof {
            assert(draws(start, (k + 1) as nat, upper) == draws(start, k as nat, upper).push(d));
        }
        interior.push(first + d);
        proof {
            assert(interior@ =~= draws(start, (k + 1) as nat, upper).map_values(
                |x: u64| (first + x) as u64,
            ));
        }
        k = k + 1;
    }
    let sorted = sort_times(&interior);
    let mut out: Vec<u64> = Vec::new();
    out.push(first);
    let mut j: usize = 0;
    while j < sorted.len()
        invariant
            j <= sorted.len(),
            out@ == seq![first] + sorted@.take(j as int),
        decreases sorted.len() - j,
    {
        out.push(sorted[j]);
        assert(sorted@.take(j + 1) =~= sorted@.take(j as int).push(sorted@[j as int]));
        j = j + 1;
    }
    out.push(last);
    proof {
        assert(sorted@.take(sorted.len() as int) =~= sorted@);
        lemma_draws_below(start, interior_n as nat, upper);
        lemma_interior_within(start, interior_n as nat, first, upper);
        assert(out@ =~= seq![first] + sorted@ + seq![last]);
        assert forall|i: int| 0 <= i < out@.len() implies out@[i] + MIN_GAP_MS <= u64::MAX by {
            if 1 <= i < out@.len() - 1 {
                assert(out@[i] == sorted@[i - 1]);
            }
        }
    }
    enforce_min_gap(&mut out, MIN_GAP_MS, total_ms);
    out
}

/// The even schedule.
fn linear_times(count: usize, total_ms: u64) -> (out: Vec<u64>)
    requires
        count > 0,
    ensures
        out@ == linear_schedule(count as nat, total_ms),
{
    let step = total_ms / count as u64;
    proof {
        assert(count * step <= total_ms) by (nonlinear_arith)
            requires
                step == total_ms as int / count as int,
                count > 0,
        ;
    }
    let mut out: Vec<u64> = Vec::new();
    let mut i: usize = 0;
    while i < count
        invariant
            i <= count,
            step == total_ms as int / count as int,
            count * step <= total_ms,
            out@ =~= linear_schedule(count as nat, total_ms).take(i as int),
        decreases count - i,
    {
        proof {
            assert((i + 1) * step <= count * step) by (nonlinear_arith)
                requires
                    i + 1 <= count,
                    step >= 0,
            ;
        }
        out.push((i as u64 + 1) * step);
        i = i + 1;
    }
    out
}

/// Whether the spacing setting asks for random times.
pub open spec fn is_random_spacing(spacing: Seq<char>) -> bool {
    spacing == SPACING_RANDOM@
}

/// The unlock times, in milliseconds from the start, of `count` achievements
/// spread over `total_ms`, drawing any random times from a generator seeded
/// with `seed`.
pub fn compute_unlock_times_seeded(count: usize, total_ms: u64, spacing: &str, seed: u64) -> (out:
    Vec<u64>)
    requires
        is_random_spacing(spacing@) && count > 2 ==> total_ms + MIN_GAP_MS <= u64::MAX,
    ensures
        count == 0 ==> out@.len() == 0,
        count > 0 && (!is_random_spacing(spacing@) || count <= 2) ==> out@ == linear_schedule(
            count as nat,
            total_ms,
        ),
        count > 2 && is_random_spacing(spacing@) ==> out@ == random_schedule(
            count as nat,
            total_ms,
            seed | 1,
        ),
{
    if count == 0 {
        return Vec::new();
    }
    if !str_equals(spacing, SPACING_RANDOM) || count <= 2 {
        return linear_times(count, total_ms);
    }
    random_times(count, total_ms, SeededRng::from_seed(seed))
}

/// What every random schedule looks like: `count` times, the first at the
/// first even slot, the last between the last even slot and `total`, never
/// going down, all within the window, and each a full gap after the one before
/// it unless it sits at the end of the window.
pub proof fn lemma_random_schedule_shape(count: nat, total: u64, state: u64)
    requires
        count > 2,
        total + MIN_GAP_MS <= u64::MAX,
    ensures
        ({
            let out = random_schedule(count, total, state);
            let step = total as int / count as int;
            &&& out.len() == count
            &&& out[0] == step
            &&& count * step <= out[count - 1] <= total
            &&& forall|i: int| 0 <= i < count ==> #[trigger] out[i] <= total
            &&& forall|i: int| 1 <= i < count ==> out[i - 1] <= #[trigger] out[i]
            &&& forall|i: int|
                1 <= i < count ==> (out[i - 1] + MIN_GAP_MS <= #[trigger] out[i] || out[i] == total)
        }),
{
    let step = total as int / count as int;
    assert(count * step <= total) by (nonlinear_arith)
        requires
            step == total as int / count as int,
            count > 0,
    ;
    assert(step <= count * step) by (nonlinear_arith)
        requires
            count > 0,
            step >= 0,
    ;
    let first = step as u64;
    let last = (count * step) as u64;
    let upper = (last - first) as u64;
    let d = draws(state, (count - 2) as nat, upper);
    lemma_interior_within(state, (count - 2) as nat, first, upper);
    let interior = d.map_values(|x: u64| (first + x) as u64);
    let sorted = interior.sort_by(time_leq());
    let s = seq![first] + sorted + seq![last];
    assert forall|i: int| 0 <= i < s.len() implies s[i] <= total by {
        if 1 <= i < s.len() - 1 {
            assert(s[i] == sorted[i - 1]);
        }
    }
    lemma_spread_shape(s, MIN_GAP_MS, total);
    assert(s[count - 1] == last);
}

/// The sorted random times all lie between the first slot and the last one.
proof fn lemma_interior_within(state: u64, n: nat, first: u64, upper: u64)
    requires
        first + upper <= u64::MAX,
    ensures
        ({
            let interior = draws(state, n, upper).map_values(|x: u64| (first + x) as u64);
            let sorted = interior.sort_by(time_leq());
            &&& sorted.len() == n
            &&& forall|i: int| 0 <= i < n ==> first <= #[trigger] sorted[i] <= first + upper
        }),
{
    lemma_draws_below(state, n, upper);
    let interior = draws(state, n, upper).map_values(|x: u64| (first + x) as u64);
    let sorted = interior.sort_by(time_leq());
    interior.lemma_sort_by_ensures(time_leq());
    vstd::seq_lib::to_multiset_len(interior);
    vstd::seq_lib::to_multiset_len(sorted);
    assert(sorted.len() == n);
    assert forall|i: int| 0 <= i < n implies first <= #[trigger] sorted[i] <= first + upper by {
        let x = sorted[i];
        assert(sorted.contains(x));
        vstd::seq_lib::to_multiset_contains(sorted, x);
        vstd::seq_lib::to_multiset_contains(interior, x);
        assert(sorted.to_multiset().count(x) > 0);
        assert(interior.to_multiset().count(x) > 0);
        assert(interior.contains(x));
        let k = choose|k: int| 0 <= k < interior.len() && interior[k] == x;
        assert(interior[k] == first + draws(state, n, upper)[k]);
    }
}

proof fn lemma_draws_below(state: u64, n: nat, upper: u64)
    ensures
        draws(state, n, upper).len() == n,
        forall|j: int|
            0 <= j < n ==> #[trigger] draws(state, n, upper)[j] < upper || (upper == 0 && draws(
                state,
                n,
                upper,
            )[j] == 0),
    decreases n,
{
    if n > 0 {
        lemma_draws_below(state, (n - 1) as nat, upper);
    }
}

/// The unlock times, in milliseconds from the start, of `count` achievements
/// spread over `total_ms`: evenly, or, for random spacing and more than two
/// achievements, at random moments seeded from the clock.
pub fn compute_unlock_times_ms(count: usize, total_ms: u64, spacing: &str) -> (out: Vec<u64>)
    requires
        is_random_spacing(spacing@) && count > 2 ==> total_ms + MIN_GAP_MS <= u64::MAX,
    ensures
        count == 0 ==> out@.len() == 0,
        count > 0 && (!is_random_spacing(spacing@) || count <= 2) ==> out@ == linear_schedule(
            count as nat,
            total_ms,
        ),
        count > 2 && is_random_spacing(spacing@) ==> exists|state: u64|
            state % 2 == 1 && out@ == #[trigger] random_schedule(count as nat, total_ms, state),
        count > 2 && is_random_spacing(spacing@) ==> ({
            let step = total_ms as int / count as int;
            &&& out@.len() == count
            &&& out@[0] == step
            &&& count * step <= out@[count - 1] <= total_ms
            &&& forall|i: int| 1 <= i < count ==> out@[i - 1] <= #[trigger] out@[i]
            &&& forall|i: int|
                1 <= i < count ==> (out@[i - 1] + MIN_GAP_MS <= #[trigger] out@[i] || out@[i]
                    == total_ms)
        }),
{
    if count == 0 {
        return Vec::new();
    }
    if !str_equals(spacing, SPACING_RANDOM) || count <= 2 {
        return linear_times(count, total_ms);
    }
    let rng = SeededRng::from_time();
    let ghost state = rng@;
    let out = random_times(count, total_ms, rng);
    proof {
        lemma_random_schedule_shape(count as nat, total_ms, state);
    }
    out
}

/// The smallest gap between two consecutive unlock times among the first `n`
/// times, or `None` when there are fewer than two.
pub open spec fn smallest_gap_upto(times: Seq<u64>, n: int) -> Option<int>
    decreases n,
{
    if n < 2 {
        None
    } else {
        let gap = if times[n - 1] >= times[n - 2] { times[n - 1] - times[n - 2] } else { 0 };
        match smallest_gap_upto(times, n - 1) {
            Some(g) => Some(if gap < g { gap } else { g }),
            None => Some(gap),
        }
    }
}

/// How often the countdown of a timed unlock refreshes: as often as the
/// closest two unlocks need, between every 50 ms and every second.
pub open spec fn refresh_interval_spec(times: Seq<u64>) -> int {
    let gap = match smallest_gap_upto(times, times.len() as int) {
        Some(g) => g,
        None => 1000,
    };
    if gap < 50 {
        50
    } else if gap > 1000 {
        1000
    } else {
        gap
    }
}

/// The countdown's refresh interval in milliseconds.
pub fn refresh_interval_ms(times: &Vec<u64>) -> (ms: u64)
    ensures
        ms == refresh_interval_spec(times@),
{
    let mut smallest: Option<u64> = None;
    let mut i: usize = 1;
    while i < times.len()
        invariant
            1 <= i <= times@.len() || times@.len() == 0,
            times@.len() == 0 ==> smallest is None,
            times@.len() > 0 ==> (match smallest {
                Some(g) => Some(g as int),
                None => None,
            }) == smallest_gap_upto(times@, i as int),
        decreases times.len() - i,
    {
        let gap = times[i].saturating_sub(times[i - 1]);
        smallest = match smallest {
            Some(g) => Some(if gap < g { gap } else { g }),
            None => Some(gap),
        };
        i = i + 1;
    }
    let gap = match smallest {
        Some(g) => g,
        None => 1000,
    };
    proof {
        if times@.len() == 0 {
            assert(smallest_gap_upto(times@, 0) is None);
        }
    }
    if gap < 50 {
        50
    } else if gap > 1000 {
        1000
    } else {
        gap
    }
}

/// Where the countdown stands after `elapsed_ms`: the unlocks from `next`
/// on whose time has come are due; returns the index past the last one due.
pub open spec fn due_until(times: Seq<u64>, next: int, elapsed_ms: u64) -> int
    decreases times.len() - next,
{
    if next < 0 || next >= times.len() || elapsed_ms < times[next] {
        next
    } else {
        due_until(times, next + 1, elapsed_ms)
    }
}

/// The index past the unlocks due after `elapsed_ms`, starting from `next`.
pub fn due_unlocks(times: &Vec<u64>, next: usize, elapsed_ms: u64) -> (until: usize)
    ensures
        until == due_until(times@, next as int, elapsed_ms),
{
    let mut k = next;
    while k < times.len() && elapsed_ms >= times[k]
        invariant
            next <= k,
            due_until(times@, k as int, elapsed_ms) == due_until(times@, next as int, elapsed_ms),
        decreases times.len() - k,
    {
        k = k + 1;
    }
    k
}

/// Whole seconds left before an unlock at `time_ms`, `elapsed_ms` in; 0
/// shows as "OK".
pub fn seconds_left(time_ms: u64, elapsed_ms: u64) -> (s: u64)
    ensures
        s == (if time_ms > elapsed_ms { (time_ms - elapsed_ms) as u64 / 1000 } else { 0 }),
{
    time_ms.saturating_sub(elapsed_ms) / 1000
}

} // verus!
