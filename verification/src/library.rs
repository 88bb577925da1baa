//! The app list: what the interface knows of each game, the tally of games
//! whose achievement counts have been read, and the filters and orders of
//! the grid.
use vstd::prelude::*;
use crate::text::str_equals;
use std::collections::HashMap;

verus! {

broadcast use vstd::std_specs::hash::group_hash_axioms;

/// The Unicode lower-case form of a string, as `str::to_lowercase` computes it.
pub uninterp spec fn unicode_lowercase(s: Seq<char>) -> Seq<char>;

/// `str::to_lowercase`: the string with every character in its Unicode
/// lower-case form. Its result depends on the string alone.
#[verifier::external_body]
pub(crate) fn to_lowercase(s: &str) -> (lower: String)
    ensures
        lower@ == unicode_lowercase(s@),
{
    s.to_lowercase()
}

/// The key the grid's search matches against: the text in lower case.
pub fn search_key(text: &str) -> (key: String)
    ensures
        key@ == unicode_lowercase(text@),
{
    to_lowercase(text)
}

/// What the grid knows of one game.
#[derive(Clone, Debug)]
pub struct AppRecord {
    pub app_id: u32,
    /// The name in lower case, for search and sorting.
    pub lowercase_name: String,
    /// The placeholder card shown for an app id typed into the search bar.
    pub is_synthetic: bool,
    pub is_junk: bool,
    pub is_idling: bool,
    pub can_start_idling: bool,
    pub achievements_loaded: bool,
    pub achievement_count: u32,
    pub unlocked_achievement_count: u32,
    pub playtime_minutes: u32,
    /// Unix time of the last launch, 0 for never.
    pub last_played: u64,
}

/// The "achievements left" sort key: what is left to unlock, or `u32::MAX`
/// (sorting last) while the counts are unknown or nothing is left.
pub open spec fn remaining_key(total: u32, unlocked: u32, loaded: bool) -> u32 {
    let remaining = if unlocked < total { (total - unlocked) as u32 } else { 0u32 };
    if loaded && remaining > 0 {
        remaining
    } else {
        u32::MAX
    }
}

/// The "achievements left" sort key of a game's counts.
pub fn remaining(total: u32, unlocked: u32, loaded: bool) -> (key: u32)
    ensures
        key == remaining_key(total, unlocked, loaded),
{
    let remaining = total.saturating_sub(unlocked);
    if loaded && remaining > 0 {
        remaining
    } else {
        u32::MAX
    }
}

/// The fraction the completion order compares: unlocked over total, or
/// `None` while the counts are unknown or there are no achievements at all.
pub open spec fn completion_fraction(app: AppRecord) -> Option<(u32, u32)> {
    if app.achievements_loaded && app.achievement_count > 0 {
        Some((app.unlocked_achievement_count, app.achievement_count))
    } else {
        None
    }
}

impl AppRecord {
    /// A game as the app list reports it; unknown counts leave it unloaded.
    pub fn new(
        app_id: u32,
        app_name: &str,
        is_junk: bool,
        playtime_minutes: Option<u32>,
        last_played: Option<u64>,
        achievement_count: Option<u32>,
        unlocked_achievement_count: Option<u32>,
    ) -> (app: Self)
        ensures
            app.app_id == app_id,
            app.lowercase_name@ == unicode_lowercase(app_name@),
            !app.is_synthetic,
            app.is_junk == is_junk,
            !app.is_idling,
            app.can_start_idling,
            app.achievements_loaded == achievement_count is Some,
            app.achievement_count == (match achievement_count {
                Some(c) => c,
                None => 0,
            }),
            app.unlocked_achievement_count == (match unlocked_achievement_count {
                Some(c) => c,
                None => 0,
            }),
            app.playtime_minutes == (match playtime_minutes {
                Some(m) => m,
                None => 0,
            }),
            app.last_played == (match last_played {
                Some(t) => t,
                None => 0,
            }),
    {
        AppRecord {
            app_id,
            lowercase_name: to_lowercase(app_name),
            is_synthetic: false,
            is_junk,
            is_idling: false,
            can_start_idling: true,
            achievements_loaded: achievement_count.is_some(),
            achievement_count: match achievement_count {
                Some(c) => c,
                None => 0,
            },
            unlocked_achievement_count: match unlocked_achievement_count {
                Some(c) => c,
                None => 0,
            },
            playtime_minutes: match playtime_minutes {
                Some(m) => m,
                None => 0,
            },
            last_played: match last_played {
                Some(t) => t,
                None => 0,
            },
        }
    }

    /// Writes the counts; `loaded` says whether they were read from Steam.
    pub fn set_counts(&mut self, total: u32, unlocked: u32, loaded: bool)
        ensures
            final(self).achievement_count == total,
            final(self).unlocked_achievement_count == unlocked,
            final(self).achievements_loaded == loaded,
            final(self).app_id == old(self).app_id,
            final(self).lowercase_name == old(self).lowercase_name,
            final(self).is_synthetic == old(self).is_synthetic,
            final(self).is_junk == old(self).is_junk,
            final(self).is_idling == old(self).is_idling,
            final(self).can_start_idling == old(self).can_start_idling,
            final(self).playtime_minutes == old(self).playtime_minutes,
            final(self).last_played == old(self).last_played,
    {
        self.achievement_count = total;
        self.unlocked_achievement_count = unlocked;
        self.achievements_loaded = loaded;
    }

    /// The same game with its "can start idling" flag set to `can_start`.
    pub fn with_can_start_idling(&self, can_start: bool) -> (app: AppRecord)
        ensures
            app == (AppRecord { can_start_idling: can_start, ..*self }),
    {
        AppRecord {
            app_id: self.app_id,
            lowercase_name: self.lowercase_name.clone(),
            is_synthetic: self.is_synthetic,
            is_junk: self.is_junk,
            is_idling: self.is_idling,
            can_start_idling: can_start,
            achievements_loaded: self.achievements_loaded,
            achievement_count: self.achievement_count,
            unlocked_achievement_count: self.unlocked_achievement_count,
            playtime_minutes: self.playtime_minutes,
            last_played: self.last_played,
        }
    }

    /// The fraction the completion order compares: unlocked over total, or
    /// `None` (sorting last) while the counts are unknown or there are no
    /// achievements at all.
    pub fn completion(&self) -> (fraction: Option<(u32, u32)>)
        ensures
            fraction == completion_fraction(*self),
    {
        if self.achievements_loaded && self.achievement_count > 0 {
            Some((self.unlocked_achievement_count, self.achievement_count))
        } else {
            None
        }
    }

    /// The "achievements left" sort key.
    pub fn remaining(&self) -> (key: u32)
        ensures
            key == remaining_key(
                self.achievement_count,
                self.unlocked_achievement_count,
                self.achievements_loaded,
            ),
    {
        remaining(self.achievement_count, self.unlocked_achievement_count, self.achievements_loaded)
    }
}

/// The grid's filters, as the settings hold them.
#[derive(Clone, Copy, Debug, PartialEq, Eq)]
pub struct FilterState {
    /// Hide junk (the "Show junk" box shows the negation).
    pub junk: bool,
    pub only_idling: bool,
    pub hide_fully_unlocked: bool,
    pub hide_never_launched: bool,
    pub hide_no_unlocked: bool,
    pub hide_without_achievements: bool,
}

impl FilterState {
    /// Whether a filter compares achievement counts.
    pub open spec fn spec_depends_on_counts(&self) -> bool {
        self.hide_fully_unlocked || self.hide_no_unlocked || self.hide_without_achievements
    }

    /// Whether a filter compares achievement counts, which are only known once
    /// every game has been read.
    pub fn depends_on_counts(&self) -> (r: bool)
        ensures
            r == self.spec_depends_on_counts(),
    {
        self.hide_fully_unlocked || self.hide_no_unlocked || self.hide_without_achievements
    }
}

/// `needle` occurs in `haystack`.
pub open spec fn contains_text(haystack: Seq<char>, needle: Seq<char>) -> bool {
    exists|i: int| 0 <= i <= haystack.len() - needle.len() && #[trigger] haystack.subrange(i, i + needle.len()) == needle
}

/// Whether `needle` occurs in `haystack`.
pub fn str_contains(haystack: &str, needle: &str) -> (r: bool)
    ensures
        r == contains_text(haystack@, needle@),
{
    let n = haystack.unicode_len();
    let m = needle.unicode_len();
    if m > n {
        return false;
    }
    let mut i: usize = 0;
    while i <= n - m
        invariant
            n == haystack@.len(),
            m == needle@.len(),
            m <= n,
            i <= n - m + 1,
            forall|k: int| 0 <= k < i ==> #[trigger] haystack@.subrange(k, k + m) != needle@,
        decreases n - m + 1 - i,
    {
        let mut j: usize = 0;
        let mut same = true;
        while j < m && same
            invariant
                n == haystack@.len(),
                m == needle@.len(),
                i + m <= n,
                j <= m,
                same == forall|q: int| 0 <= q < j ==> haystack@[i + q] == needle@[q],
            decreases m - j, if same { 1int } else { 0int },
        {
            if haystack.get_char(i + j) != needle.get_char(j) {
                same = false;
            }
            j = j + 1;
        }
        if same {
            assert(haystack@.subrange(i as int, i + m) =~= needle@);
            return true;
        }
        proof {
            let q = choose|q: int| 0 <= q < j && haystack@[i + q] != needle@[q];
            assert(haystack@.subrange(i as int, i + m)[q] != needle@[q]);
        }
        i = i + 1;
    }
    false
}

/// Whether the grid shows a game: search placeholders always; otherwise the
/// junk, idling and never-launched filters, the count filters once every
/// game has been read, and the search.
pub open spec fn is_visible(
    filter: FilterState,
    counts_ready: bool,
    search: Seq<char>,
    app: AppRecord,
) -> bool {
    if app.is_synthetic {
        true
    } else if filter.junk && app.is_junk {
        false
    } else if filter.only_idling && !app.is_idling {
        false
    } else if filter.hide_never_launched && app.last_played == 0 {
        false
    } else if counts_ready && filter.hide_without_achievements && app.achievement_count == 0 {
        false
    } else if counts_ready && filter.hide_fully_unlocked && app.achievement_count > 0
        && app.unlocked_achievement_count >= app.achievement_count {
        false
    } else if counts_ready && filter.hide_no_unlocked && app.unlocked_achievement_count == 0 {
        false
    } else {
        search.len() == 0 || contains_text(app.lowercase_name@, search)
    }
}

/// No filter at all.
pub open spec fn no_filters() -> FilterState {
    FilterState {
        junk: false,
        only_idling: false,
        hide_fully_unlocked: false,
        hide_never_launched: false,
        hide_no_unlocked: false,
        hide_without_achievements: false,
    }
}

/// The search card is always shown, whatever the filters and the search.
pub proof fn lemma_search_card_always_shown(
    filter: FilterState,
    counts_ready: bool,
    search: Seq<char>,
    app: AppRecord,
)
    requires
        app.is_synthetic,
    ensures
        is_visible(filter, counts_ready, search, app),
{
}

/// With no filter on, a game is shown exactly when the search is empty or
/// its lower-case name contains the search.
pub proof fn lemma_unfiltered_follows_search(counts_ready: bool, search: Seq<char>, app: AppRecord)
    ensures
        is_visible(no_filters(), counts_ready, search, app) == (app.is_synthetic || search.len() == 0
            || contains_text(app.lowercase_name@, search)),
{
}

/// Each filter hides exactly the games it names and no other: turning it on
/// keeps every game that was shown except those. Junk hides junk; "only
/// idling" hides the games not idling; "hide never launched" hides the games
/// never launched (last played 0); and, once every game has been read, the
/// count filters hide the games without achievements, those with every
/// achievement unlocked, and those with none unlocked. Before that the count
/// filters hide nothing.
pub proof fn lemma_each_filter_hides_what_it_names(
    f: FilterState,
    counts_ready: bool,
    search: Seq<char>,
    app: AppRecord,
)
    requires
        !app.is_synthetic,
    ensures
        is_visible(FilterState { junk: true, ..f }, counts_ready, search, app) == (is_visible(
            FilterState { junk: false, ..f },
            counts_ready,
            search,
            app,
        ) && !app.is_junk),
        is_visible(FilterState { only_idling: true, ..f }, counts_ready, search, app) == (
        is_visible(FilterState { only_idling: false, ..f }, counts_ready, search, app)
            && app.is_idling),
        is_visible(FilterState { hide_never_launched: true, ..f }, counts_ready, search, app) == (
        is_visible(FilterState { hide_never_launched: false, ..f }, counts_ready, search, app)
            && app.last_played != 0),
        is_visible(FilterState { hide_without_achievements: true, ..f }, counts_ready, search, app)
            == (is_visible(
            FilterState { hide_without_achievements: false, ..f },
            counts_ready,
            search,
            app,
        ) && !(counts_ready && app.achievement_count == 0)),
        is_visible(FilterState { hide_fully_unlocked: true, ..f }, counts_ready, search, app) == (
        is_visible(FilterState { hide_fully_unlocked: false, ..f }, counts_ready, search, app)
            && !(counts_ready && app.achievement_count > 0 && app.unlocked_achievement_count
            >= app.achievement_count)),
        is_visible(FilterState { hide_no_unlocked: true, ..f }, counts_ready, search, app) == (
        is_visible(FilterState { hide_no_unlocked: false, ..f }, counts_ready, search, app)
            && !(counts_ready && app.unlocked_achievement_count == 0)),
{
}

/// Whether the grid shows `app`, with `search` the lower-cased search text.
pub fn app_visible(filter: &FilterState, counts_ready: bool, search: &str, app: &AppRecord) -> (r:
    bool)
    ensures
        r == is_visible(*filter, counts_ready, search@, *app),
{
    if app.is_synthetic {
        return true;
    }
    if filter.junk && app.is_junk {
        return false;
    }
    if filter.only_idling && !app.is_idling {
        return false;
    }
    if filter.hide_never_launched && app.last_played == 0 {
        return false;
    }
    if counts_ready {
        let total = app.achievement_count;
        let unlocked = app.unlocked_achievement_count;
        if filter.hide_without_achievements && total == 0 {
            return false;
        }
        if filter.hide_fully_unlocked && total > 0 && unlocked >= total {
            return false;
        }
        if filter.hide_no_unlocked && unlocked == 0 {
            return false;
        }
    }
    if search.unicode_len() == 0 {
        return true;
    }
    str_contains(app.lowercase_name.as_str(), search)
}

/// The result of comparing two things.
#[derive(Clone, Copy, Debug, PartialEq, Eq)]
pub enum Order {
    Less,
    Equal,
    Greater,
}

/// Numbers in their natural order.
pub open spec fn num_order(a: int, b: int) -> Order {
    if a < b {
        Order::Less
    } else if a > b {
        Order::Greater
    } else {
        Order::Equal
    }
}

/// Strings in the order of their characters' code points (which is the order
/// of their UTF-8 bytes).
pub open spec fn text_order(a: Seq<char>, b: Seq<char>) -> Order
    decreases a.len(),
{
    if a.len() == 0 {
        if b.len() == 0 {
            Order::Equal
        } else {
            Order::Less
        }
    } else if b.len() == 0 {
        Order::Greater
    } else if (a[0] as u32) < (b[0] as u32) {
        Order::Less
    } else if (a[0] as u32) > (b[0] as u32) {
        Order::Greater
    } else {
        text_order(a.drop_first(), b.drop_first())
    }
}

/// `first`, or `second` to break a tie.
pub open spec fn then_order(first: Order, second: Order) -> Order {
    if first == Order::Equal {
        second
    } else {
        first
    }
}

proof fn lemma_text_order_step(a: Seq<char>, b: Seq<char>, i: int)
    requires
        0 <= i < a.len(),
        i < b.len(),
        a[i] == b[i],
    ensures
        text_order(a.skip(i), b.skip(i)) == text_order(a.skip(i + 1), b.skip(i + 1)),
{
    assert(a.skip(i).drop_first() =~= a.skip(i + 1));
    assert(b.skip(i).drop_first() =~= b.skip(i + 1));
}

/// Compares two strings in the order of their characters' code points.
pub fn compare_text(a: &str, b: &str) -> (r: Order)
    ensures
        r == text_order(a@, b@),
{
    let n = a.unicode_len();
    let m = b.unicode_len();
    let mut i: usize = 0;
    assert(a@.skip(0) =~= a@);
    assert(b@.skip(0) =~= b@);
    while i < n && i < m
        invariant
            n == a@.len(),
            m == b@.len(),
            i <= n,
            i <= m,
            text_order(a@, b@) == text_order(a@.skip(i as int), b@.skip(i as int)),
        decreases n - i,
    {
        let x = a.get_char(i);
        let y = b.get_char(i);
        if (x as u32) < (y as u32) {
            return Order::Less;
        }
        if (x as u32) > (y as u32) {
            return Order::Greater;
        }
        proof {
            lemma_text_order_step(a@, b@, i as int);
        }
        i = i + 1;
    }
    if i == n {
        if i == m {
            Order::Equal
        } else {
            Order::Less
        }
    } else {
        Order::Greater
    }
}

fn compare_u64(a: u64, b: u64) -> (r: Order)
    ensures
        r == num_order(a as int, b as int),
{
    if a < b {
        Order::Less
    } else if a > b {
        Order::Greater
    } else {
        Order::Equal
    }
}

/// The sort modes that need every game's counts to mean anything.
pub open spec fn mode_needs_counts(mode: Seq<char>) -> bool {
    mode == "completion"@ || mode == "remaining"@
}

/// Whether a sort mode compares achievement counts.
pub fn sort_needs_counts(value: &str) -> (r: bool)
    ensures
        r == mode_needs_counts(value@),
{
    str_equals(value, "completion") || str_equals(value, "remaining")
}

/// The grid's order of two games under a sort mode: by name; by last launch or
/// playtime, most first; by completion, highest first, or by achievements
/// left, fewest first, once every game has been read (by name until then);
/// and by app id for any other mode. Ties go by name.
pub open spec fn app_order(mode: Seq<char>, counts_ready: bool, a: AppRecord, b: AppRecord) -> Order {
    let by_name = text_order(a.lowercase_name@, b.lowercase_name@);
    if mode == "alphabetical"@ {
        by_name
    } else if mode == "last_played"@ {
        then_order(num_order(b.last_played as int, a.last_played as int), by_name)
    } else if mode == "playtime"@ {
        then_order(num_order(b.playtime_minutes as int, a.playtime_minutes as int), by_name)
    } else if mode == "completion"@ && counts_ready {
        then_order(completion_versus(completion_fraction(b), completion_fraction(a)), by_name)
    } else if mode == "remaining"@ && counts_ready {
        then_order(
            num_order(
                remaining_key(
                    a.achievement_count,
                    a.unlocked_achievement_count,
                    a.achievements_loaded,
                ) as int,
                remaining_key(
                    b.achievement_count,
                    b.unlocked_achievement_count,
                    b.achievements_loaded,
                ) as int,
            ),
            by_name,
        )
    } else if mode_needs_counts(mode) {
        by_name
    } else {
        num_order(a.app_id as int, b.app_id as int)
    }
}

/// The same comparison seen from the other side.
pub open spec fn reversed(o: Order) -> Order {
    match o {
        Order::Less => Order::Greater,
        Order::Equal => Order::Equal,
        Order::Greater => Order::Less,
    }
}

proof fn lemma_text_order_flips(a: Seq<char>, b: Seq<char>)
    ensures
        text_order(b, a) == reversed(text_order(a, b)),
    decreases a.len(),
{
    if a.len() > 0 && b.len() > 0 && a[0] as u32 == b[0] as u32 {
        lemma_text_order_flips(a.drop_first(), b.drop_first());
    }
}

/// The grid's order is a consistent comparison: comparing two games the
/// other way round gives the opposite answer, so the sort never contradicts
/// itself.
pub proof fn lemma_app_order_flips(mode: Seq<char>, counts_ready: bool, a: AppRecord, b: AppRecord)
    ensures
        app_order(mode, counts_ready, b, a) == reversed(app_order(mode, counts_ready, a, b)),
{
    lemma_text_order_flips(a.lowercase_name@, b.lowercase_name@);
}

/// The sort modes' names are different words.
proof fn lemma_mode_names_differ()
    ensures
        "alphabetical"@.len() == 12,
        "last_played"@.len() == 11,
        "completion"@.len() == 10,
        "remaining"@.len() == 9,
        "playtime"@.len() == 8,
{
    reveal_strlit("alphabetical");
    reveal_strlit("last_played");
    reveal_strlit("completion");
    reveal_strlit("remaining");
    reveal_strlit("playtime");
}

/// Achievements still locked in a game, as a number (negative when a schema
/// lost achievements and more are unlocked than it has).
pub open spec fn left_to_unlock(app: AppRecord) -> int {
    app.achievement_count - app.unlocked_achievement_count
}

/// Under "last played", the game launched more recently sorts first,
/// whatever the names and whether counts are read.
pub proof fn lemma_most_recently_played_first(counts_ready: bool, a: AppRecord, b: AppRecord)
    requires
        a.last_played > b.last_played,
    ensures
        app_order("last_played"@, counts_ready, a, b) == Order::Less,
        app_order("last_played"@, counts_ready, b, a) == Order::Greater,
{
    lemma_mode_names_differ();
}

/// Under "playtime", the game played longer sorts first, whatever the names.
pub proof fn lemma_most_played_first(counts_ready: bool, a: AppRecord, b: AppRecord)
    requires
        a.playtime_minutes > b.playtime_minutes,
    ensures
        app_order("playtime"@, counts_ready, a, b) == Order::Less,
        app_order("playtime"@, counts_ready, b, a) == Order::Greater,
{
    lemma_mode_names_differ();
}

/// Under "remaining" with every game read, of two read games with
/// achievements left, the one with fewer left sorts first, whatever the
/// names.
pub proof fn lemma_fewest_left_first(a: AppRecord, b: AppRecord)
    requires
        a.achievements_loaded,
        b.achievements_loaded,
        0 < left_to_unlock(a) < left_to_unlock(b),
    ensures
        app_order("remaining"@, true, a, b) == Order::Less,
        app_order("remaining"@, true, b, a) == Order::Greater,
{
    lemma_mode_names_differ();
}

/// Under "remaining" with every game read, a read game with achievements
/// left sorts before one not read yet or with nothing left, whatever the
/// names (a game can have at most `u32::MAX` left, which ties with them).
pub proof fn lemma_unfinished_before_the_rest(a: AppRecord, b: AppRecord)
    requires
        a.achievements_loaded,
        0 < left_to_unlock(a) < u32::MAX,
        !b.achievements_loaded || left_to_unlock(b) <= 0,
    ensures
        app_order("remaining"@, true, a, b) == Order::Less,
        app_order("remaining"@, true, b, a) == Order::Greater,
{
    lemma_mode_names_differ();
}

/// Under "completion" with every game read, of two read games with
/// achievements, the one with the larger share unlocked sorts first,
/// whatever the names.
pub proof fn lemma_most_complete_first(a: AppRecord, b: AppRecord)
    requires
        a.achievements_loaded,
        b.achievements_loaded,
        a.achievement_count > 0,
        b.achievement_count > 0,
        a.unlocked_achievement_count * b.achievement_count > b.unlocked_achievement_count
            * a.achievement_count,
    ensures
        app_order("completion"@, true, a, b) == Order::Less,
        app_order("completion"@, true, b, a) == Order::Greater,
{
    lemma_mode_names_differ();
}

/// Under "completion" with every game read, a read game with achievements
/// sorts before one not read yet or without achievements.
pub proof fn lemma_measured_before_unmeasured(a: AppRecord, b: AppRecord)
    requires
        a.achievements_loaded,
        a.achievement_count > 0,
        !b.achievements_loaded || b.achievement_count == 0,
    ensures
        app_order("completion"@, true, a, b) == Order::Less,
        app_order("completion"@, true, b, a) == Order::Greater,
{
    lemma_mode_names_differ();
}

/// Until every game is read, the count orders sort by name alone.
pub proof fn lemma_count_orders_wait_for_counts(mode: Seq<char>, a: AppRecord, b: AppRecord)
    requires
        mode == "completion"@ || mode == "remaining"@,
    ensures
        app_order(mode, false, a, b) == text_order(a.lowercase_name@, b.lowercase_name@),
{
    lemma_mode_names_differ();
}

/// How completion fraction `x` compares with `y`: unknown sorts below every
/// known fraction, and two fractions compare by their values.
pub open spec fn completion_versus(x: Option<(u32, u32)>, y: Option<(u32, u32)>) -> Order {
    match (x, y) {
        (None, None) => Order::Equal,
        (None, Some(_)) => Order::Less,
        (Some(_), None) => Order::Greater,
        (Some((ux, tx)), Some((uy, ty))) => num_order(ux * ty, uy * tx),
    }
}

proof fn lemma_u32_product_fits(a: u32, b: u32)
    ensures
        a * b <= u64::MAX,
{
    assert(a * b <= u32::MAX * u32::MAX) by (nonlinear_arith)
        requires
            a <= u32::MAX,
            b <= u32::MAX,
    ;
}

/// Compares two completion fractions (each with a nonzero total) by value,
/// by cross-multiplying, so no rounding can call two different ones equal.
pub fn compare_completion(x: Option<(u32, u32)>, y: Option<(u32, u32)>) -> (r: Order)
    ensures
        r == completion_versus(x, y),
{
    match (x, y) {
        (None, None) => Order::Equal,
        (None, Some(_)) => Order::Less,
        (Some(_), None) => Order::Greater,
        (Some((ux, tx)), Some((uy, ty))) => {
            proof {
                lemma_u32_product_fits(ux, ty);
                lemma_u32_product_fits(uy, tx);
            }
            let left: u64 = ux as u64 * ty as u64;
            let right: u64 = uy as u64 * tx as u64;
            compare_u64(left, right)
        },
    }
}

/// Compares two games for the grid under sort mode `mode`.
pub fn compare_apps(
    mode: &str,
    counts_ready: bool,
    a: &AppRecord,
    b: &AppRecord,
) -> (r: Order)
    ensures
        r == app_order(mode@, counts_ready, *a, *b),
{
    let by_name = compare_text(a.lowercase_name.as_str(), b.lowercase_name.as_str());
    let first = if str_equals(mode, "alphabetical") {
        return by_name;
    } else if str_equals(mode, "last_played") {
        compare_u64(b.last_played, a.last_played)
    } else if str_equals(mode, "playtime") {
        compare_u64(b.playtime_minutes as u64, a.playtime_minutes as u64)
    } else if str_equals(mode, "completion") && counts_ready {
        compare_completion(b.completion(), a.completion())
    } else if str_equals(mode, "remaining") && counts_ready {
        compare_u64(a.remaining() as u64, b.remaining() as u64)
    } else if sort_needs_counts(mode) {
        return by_name;
    } else {
        return compare_u64(a.app_id as u64, b.app_id as u64);
    };
    match first {
        Order::Equal => by_name,
        _ => first,
    }
}

/// Which games count towards the tally: every one but the search placeholder.
pub open spec fn counted(app: AppRecord) -> bool {
    !app.is_synthetic
}

/// Among the first `n` games, those that count.
pub open spec fn total_counted(apps: Seq<AppRecord>, n: int) -> int
    decreases n,
{
    if n <= 0 {
        0
    } else {
        total_counted(apps, n - 1) + (if counted(apps[n - 1]) { 1int } else { 0int })
    }
}

/// Among the first `n` games, those that count and whose counts were read.
pub open spec fn loaded_counted(apps: Seq<AppRecord>, n: int) -> int
    decreases n,
{
    if n <= 0 {
        0
    } else {
        loaded_counted(apps, n - 1) + (if counted(apps[n - 1]) && apps[n - 1].achievements_loaded {
            1int
        } else {
            0int
        })
    }
}

/// Where the last game with `app_id` sits among the first `n`.
pub open spec fn last_position(apps: Seq<AppRecord>, app_id: u32, n: int) -> Option<int>
    decreases n,
{
    if n <= 0 {
        None
    } else if apps[n - 1].app_id == app_id {
        Some(n - 1)
    } else {
        last_position(apps, app_id, n - 1)
    }
}

proof fn lemma_tally_bounds(apps: Seq<AppRecord>, n: int)
    requires
        0 <= n,
    ensures
        0 <= loaded_counted(apps, n) <= total_counted(apps, n) <= n,
    decreases n,
{
    if n > 0 {
        lemma_tally_bounds(apps, n - 1);
    }
}

/// The lookup and tally built from the store.
struct IndexState {
    by_id: HashMap<u32, usize>,
    loaded: u32,
    total: u32,
}

/// App-id lookup over the app list, plus the `(loaded, total)` tally of games
/// whose counts were read, kept so neither is recomputed per chunk of counts.
/// Any change to the list drops both; the generation counts the changes.
pub struct AppIndex {
    state: Option<IndexState>,
    generation: u64,
}

impl View for AppIndex {
    /// The positions by app id and the tally, when built, and the generation.
    type V = (Option<(Map<u32, usize>, u32, u32)>, u64);

    closed spec fn view(&self) -> (Option<(Map<u32, usize>, u32, u32)>, u64) {
        (
            match self.state {
                Some(st) => Some((st.by_id@, st.loaded, st.total)),
                None => None,
            },
            self.generation,
        )
    }
}

/// The index as built from `apps`: each id at its last position, and the tally.
pub open spec fn built_index(apps: Seq<AppRecord>) -> (Map<u32, usize>, u32, u32) {
    (
        Map::new(
            |id: u32| last_position(apps, id, apps.len() as int) is Some,
            |id: u32| last_position(apps, id, apps.len() as int)->0 as usize,
        ),
        loaded_counted(apps, apps.len() as int) as u32,
        total_counted(apps, apps.len() as int) as u32,
    )
}

impl AppIndex {
    /// An index not built yet.
    pub fn new() -> (index: Self)
        ensures
            index@ == (None::<(Map<u32, usize>, u32, u32)>, 0u64),
    {
        AppIndex { state: None, generation: 0 }
    }

    /// The list changed: forget the lookup and the tally, and move the
    /// generation on.
    pub fn items_changed(&mut self)
        ensures
            final(self)@ == (
                None::<(Map<u32, usize>, u32, u32)>,
                old(self)@.1.wrapping_add(1),
            ),
    {
        self.state = None;
        self.generation = self.generation.wrapping_add(1);
    }

    /// How many times the list has changed.
    pub fn generation(&self) -> (g: u64)
        ensures
            g == self@.1,
    {
        self.generation
    }

    /// Builds the lookup and tally from `apps` if they were dropped.
    pub fn ensure(&mut self, apps: &Vec<AppRecord>)
        requires
            apps@.len() <= u32::MAX,
        ensures
            final(self)@.1 == old(self)@.1,
            final(self)@.0 == (match old(self)@.0 {
                Some(st) => Some(st),
                None => Some(built_index(apps@)),
            }),
    {
        if self.state.is_some() {
            return;
        }
        let ghost a = apps@;
        let mut by_id: HashMap<u32, usize> = HashMap::new();
        let mut loaded: u32 = 0;
        let mut total: u32 = 0;
        let mut i: usize = 0;
        while i < apps.len()
            invariant
                a == apps@,
                a.len() <= u32::MAX,
                i <= a.len(),
                loaded == loaded_counted(a, i as int),
                total == total_counted(a, i as int),
                by_id@ == Map::new(
                    |id: u32| last_position(a, id, i as int) is Some,
                    |id: u32| last_position(a, id, i as int)->0 as usize,
                ),
            decreases a.len() - i,
        {
            proof {
                lemma_tally_bounds(a, i as int);
            }
            let app = &apps[i];
            if !app.is_synthetic {
                total = total + 1;
                if app.achievements_loaded {
                    loaded = loaded + 1;
                }
            }
            by_id.insert(app.app_id, i);
            proof {
                assert(by_id@ =~= Map::new(
                    |id: u32| last_position(a, id, i + 1) is Some,
                    |id: u32| last_position(a, id, i + 1)->0 as usize,
                ));
            }
            i = i + 1;
        }
        self.state = Some(IndexState { by_id, loaded, total });
    }

    /// The `(loaded, total)` tally: the completion filters apply only once the
    /// two are equal, since a half-read library would hide games on data that
    /// is merely missing.
    pub fn progress(&mut self, apps: &Vec<AppRecord>) -> (tally: (u32, u32))
        requires
            apps@.len() <= u32::MAX,
        ensures
            final(self)@.1 == old(self)@.1,
            final(self)@.0 == (match old(self)@.0 {
                Some(st) => Some(st),
                None => Some(built_index(apps@)),
            }),
            final(self)@.0 matches Some(st) && tally == (st.1, st.2),
    {
        self.ensure(apps);
        match &self.state {
            Some(state) => (state.loaded, state.total),
            None => (0, 0),
        }
    }

    /// Where the game with `app_id` sits in the list.
    pub fn get(&mut self, apps: &Vec<AppRecord>, app_id: u32) -> (position: Option<usize>)
        requires
            apps@.len() <= u32::MAX,
        ensures
            final(self)@.1 == old(self)@.1,
            final(self)@.0 == (match old(self)@.0 {
                Some(st) => Some(st),
                None => Some(built_index(apps@)),
            }),
            final(self)@.0 matches Some(st) && position == (if st.0.contains_key(app_id) {
                Some(st.0[app_id])
            } else {
                None
            }),
    {
        self.ensure(apps);
        match &self.state {
            Some(state) => match state.by_id.get(&app_id) {
                Some(p) => Some(*p),
                None => None,
            },
            None => None,
        }
    }

    /// A game was updated: the first time its counts are read (and it is not
    /// the search placeholder) the tally moves by one; a second read does not.
    pub fn record_update(&mut self, was_loaded: bool, now_loaded: bool, is_synthetic: bool)
        requires
            !was_loaded && now_loaded && !is_synthetic ==> (old(self)@.0 matches Some(st) ==> st.1
                < u32::MAX),
        ensures
            final(self)@.1 == old(self)@.1,
            final(self)@.0 == (match old(self)@.0 {
                Some(st) => if !was_loaded && now_loaded && !is_synthetic {
                    Some((st.0, (st.1 + 1) as u32, st.2))
                } else {
                    Some(st)
                },
                None => None,
            }),
    {
        if was_loaded || !now_loaded || is_synthetic {
            return;
        }
        match &mut self.state {
            Some(state) => {
                state.loaded = state.loaded + 1;
            },
            None => {},
        }
    }
}

/// What the app list does after counts moved or a filter changed.
#[derive(Clone, Copy, Debug, PartialEq, Eq)]
pub enum LoaderStep {
    /// Nothing needs the counts: drop the queued reads.
    CancelBacklog,
    /// Every game has been read.
    Done,
    /// Keep reading the games not read yet.
    QueueRemaining,
}

/// The decisions of one pass over the counts' readiness.
#[derive(Clone, Copy, Debug, PartialEq, Eq)]
pub struct CountsDecision {
    /// Every game has been read.
    pub ready: bool,
    /// The profile page's wish for the counts is met.
    pub clear_profile_wish: bool,
    /// The count filters must run again.
    pub refilter: bool,
    /// The count sort must run again.
    pub resort: bool,
    pub loader: LoaderStep,
}

/// The decisions of a pass over the counts' readiness.
pub open spec fn counts_decision(
    filters_need_counts: bool,
    sort_needs: bool,
    wanted_by_profile: bool,
    loaded: u32,
    total: u32,
    was_ready: bool,
    counts_moved: bool,
) -> CountsDecision {
    let needs = filters_need_counts || sort_needs || wanted_by_profile;
    let ready = total > 0 && loaded == total;
    let rerun = was_ready != ready || (ready && counts_moved);
    CountsDecision {
        ready,
        clear_profile_wish: ready,
        refilter: rerun && filters_need_counts,
        resort: rerun && sort_needs,
        loader: if !needs || total == 0 {
            LoaderStep::CancelBacklog
        } else if ready {
            LoaderStep::Done
        } else {
            LoaderStep::QueueRemaining
        },
    }
}

/// Decides, from the tally, whether the counts are complete, whether the
/// count filters and sort must run again (when readiness flips, and on every
/// count change once complete, since unlocking a game's last achievement is
/// what makes it match "hide at 100%"), and whether to keep reading.
pub fn sync_counts_state(
    filters_need_counts: bool,
    sort_needs: bool,
    wanted_by_profile: bool,
    loaded: u32,
    total: u32,
    was_ready: bool,
    counts_moved: bool,
) -> (d: CountsDecision)
    ensures
        d == counts_decision(
            filters_need_counts,
            sort_needs,
            wanted_by_profile,
            loaded,
            total,
            was_ready,
            counts_moved,
        ),
{
    let needs = filters_need_counts || sort_needs || wanted_by_profile;
    let ready = total > 0 && loaded == total;
    let rerun = was_ready != ready || (ready && counts_moved);
    let loader = if !needs || total == 0 {
        LoaderStep::CancelBacklog
    } else if ready {
        LoaderStep::Done
    } else {
        LoaderStep::QueueRemaining
    };
    CountsDecision {
        ready,
        clear_profile_wish: ready,
        refilter: rerun && filters_need_counts,
        resort: rerun && sort_needs,
        loader,
    }
}

/// How many games may be idled at once.
pub const MAX_CONCURRENT_IDLE: usize = 8;

/// Among the first `n` games, those being idled.
pub open spec fn idling_count(apps: Seq<AppRecord>, n: int) -> int
    decreases n,
{
    if n <= 0 {
        0
    } else {
        idling_count(apps, n - 1) + (if apps[n - 1].is_idling { 1int } else { 0int })
    }
}

proof fn lemma_idling_bound(apps: Seq<AppRecord>, n: int)
    requires
        0 <= n,
    ensures
        0 <= idling_count(apps, n) <= n,
    decreases n,
{
    if n > 0 {
        lemma_idling_bound(apps, n - 1);
    }
}

/// Counts the games being idled and lets each start idling only while fewer
/// than the cap are; returns the count.
pub fn recompute_idle_cap(apps: &mut Vec<AppRecord>) -> (count: usize)
    ensures
        count == idling_count(old(apps)@, old(apps)@.len() as int),
        final(apps)@.len() == old(apps)@.len(),
        forall|i: int|
            0 <= i < old(apps)@.len() ==> {
                let before = old(apps)@[i];
                let after = #[trigger] final(apps)@[i];
                &&& after.can_start_idling == (count < MAX_CONCURRENT_IDLE)
                &&& after.app_id == before.app_id
                &&& after.is_idling == before.is_idling
                &&& after.lowercase_name == before.lowercase_name
                &&& after.is_synthetic == before.is_synthetic
                &&& after.is_junk == before.is_junk
                &&& after.achievements_loaded == before.achievements_loaded
                &&& after.achievement_count == before.achievement_count
                &&& after.unlocked_achievement_count == before.unlocked_achievement_count
                &&& after.playtime_minutes == before.playtime_minutes
                &&& after.last_played == before.last_played
            },
{
    let ghost a = apps@;
    let n = apps.len();
    let mut count: usize = 0;
    let mut i: usize = 0;
    while i < n
        invariant
            a == apps@,
            n == a.len(),
            i <= n,
            count == idling_count(a, i as int),
        decreases n - i,
    {
        proof {
            lemma_idling_bound(a, i as int);
        }
        if apps[i].is_idling {
            count = count + 1;
        }
        i = i + 1;
    }
    let can_start = count < MAX_CONCURRENT_IDLE;
    set_can_start_idling(apps, can_start);
    count
}

/// The games with every "can start idling" flag set to `can_start`.
pub open spec fn with_idle_flags(apps: Seq<AppRecord>, can_start: bool) -> Seq<AppRecord> {
    apps.map_values(|app: AppRecord| AppRecord { can_start_idling: can_start, ..app })
}

/// Sets every game's "can start idling" flag.
fn set_can_start_idling(apps: &mut Vec<AppRecord>, can_start: bool)
    ensures
        final(apps)@ == with_idle_flags(old(apps)@, can_start),
        final(apps)@.len() == old(apps)@.len(),
        forall|i: int|
            0 <= i < old(apps)@.len() ==> {
                let before = old(apps)@[i];
                let after = #[trigger] final(apps)@[i];
                &&& after.can_start_idling == can_start
                &&& after.app_id == before.app_id
                &&& after.is_idling == before.is_idling
                &&& after.lowercase_name == before.lowercase_name
                &&& after.is_synthetic == before.is_synthetic
                &&& after.is_junk == before.is_junk
                &&& after.achievements_loaded == before.achievements_loaded
                &&& after.achievement_count == before.achievement_count
                &&& after.unlocked_achievement_count == before.unlocked_achievement_count
                &&& after.playtime_minutes == before.playtime_minutes
                &&& after.last_played == before.last_played
            },
{
    let ghost a = apps@;
    let n = apps.len();
    let mut i: usize = 0;
    while i < n
        invariant
            n == a.len(),
            apps@.len() == n,
            i <= n,
            forall|k: int|
                0 <= k < n ==> {
                    let before = a[k];
                    let after = #[trigger] apps@[k];
                    &&& (k < i ==> after.can_start_idling == can_start)
                    &&& (k >= i ==> after.can_start_idling == before.can_start_idling)
                    &&& after.app_id == before.app_id
                    &&& after.is_idling == before.is_idling
                    &&& after.lowercase_name == before.lowercase_name
                    &&& after.is_synthetic == before.is_synthetic
                    &&& after.is_junk == before.is_junk
                    &&& after.achievements_loaded == before.achievements_loaded
                    &&& after.achievement_count == before.achievement_count
                    &&& after.unlocked_achievement_count == before.unlocked_achievement_count
                    &&& after.playtime_minutes == before.playtime_minutes
                    &&& after.last_played == before.last_played
                },
        decreases n - i,
    {
        let app = apps[i].with_can_start_idling(can_start);
        apps.set(i, app);
        i = i + 1;
    }
}

/// The idle count after a known change of `delta` games, never below zero.
pub open spec fn idle_count_after(old_count: usize, delta: i32) -> usize {
    if old_count + delta < 0 {
        0
    } else {
        (old_count + delta) as usize
    }
}

/// Applies a known change (+1 or -1) to the idle count `idle_count`. Only
/// when the count crosses the cap do the games' "can start idling" flags
/// change: then every game's flag says whether the new count is under the
/// cap; otherwise the games are left as they are.
pub fn apply_idle_cap_delta(apps: &mut Vec<AppRecord>, idle_count: &mut usize, delta: i32)
    requires
        *old(idle_count) + delta <= i32::MAX,
        *old(idle_count) <= i32::MAX,
    ensures
        *final(idle_count) == idle_count_after(*old(idle_count), delta),
        (*old(idle_count) < MAX_CONCURRENT_IDLE) == (*final(idle_count) < MAX_CONCURRENT_IDLE)
            ==> final(apps)@ == old(apps)@,
        (*old(idle_count) < MAX_CONCURRENT_IDLE) != (*final(idle_count) < MAX_CONCURRENT_IDLE)
            ==> final(apps)@ == with_idle_flags(old(apps)@, *final(idle_count) < MAX_CONCURRENT_IDLE),
{
    let old_count = *idle_count;
    let sum: i32 = old_count as i32 + delta;
    let new_count: usize = if sum < 0 { 0 } else { sum as usize };
    *idle_count = new_count;
    let was_under = old_count < MAX_CONCURRENT_IDLE;
    let now_under = new_count < MAX_CONCURRENT_IDLE;
    if was_under == now_under {
        return;
    }
    set_can_start_idling(apps, now_under);
}

/// The index answers for `apps`: once built, it is what building it from
/// `apps` would give.
pub open spec fn tracks(index: (Option<(Map<u32, usize>, u32, u32)>, u64), apps: Seq<AppRecord>) -> bool {
    index.0 matches Some(st) ==> st == built_index(apps)
}

/// `app` with counts read from Steam.
pub open spec fn with_counts(app: AppRecord, total: u32, unlocked: u32) -> AppRecord {
    AppRecord {
        achievement_count: total,
        unlocked_achievement_count: unlocked,
        achievements_loaded: true,
        ..app
    }
}

proof fn lemma_update_keeps_positions(apps: Seq<AppRecord>, p: int, x: AppRecord, id: u32, n: int)
    requires
        0 <= p < apps.len(),
        x.app_id == apps[p].app_id,
        n <= apps.len(),
    ensures
        last_position(apps.update(p, x), id, n) == last_position(apps, id, n),
    decreases n,
{
    if n > 0 {
        lemma_update_keeps_positions(apps, p, x, id, n - 1);
    }
}

proof fn lemma_update_tally(apps: Seq<AppRecord>, p: int, x: AppRecord, n: int)
    requires
        0 <= p < apps.len(),
        x.is_synthetic == apps[p].is_synthetic,
        x.achievements_loaded,
        0 <= n <= apps.len(),
    ensures
        total_counted(apps.update(p, x), n) == total_counted(apps, n),
        loaded_counted(apps.update(p, x), n) == loaded_counted(apps, n) + (if p < n && counted(apps[p])
            && !apps[p].achievements_loaded {
            1int
        } else {
            0int
        }),
        p < n && counted(apps[p]) && !apps[p].achievements_loaded ==> loaded_counted(apps, n)
            < total_counted(apps, n),
    decreases n,
{
    if n > 0 {
        lemma_update_tally(apps, p, x, n - 1);
        lemma_tally_bounds(apps, n - 1);
    }
}

impl AppIndex {
    /// Writes counts read from Steam into the game with `app_id` and moves the
    /// tally when that is the game's first read. Returns whether the game's
    /// counts were known before, or `None` when no game has that id.
    pub fn update(&mut self, apps: &mut Vec<AppRecord>, app_id: u32, total: u32, unlocked: u32) -> (was_loaded: Option<bool>)
        requires
            old(apps)@.len() <= u32::MAX,
            tracks(old(self)@, old(apps)@),
        ensures
            final(self)@.1 == old(self)@.1,
            final(self)@.0 is Some,
            tracks(final(self)@, final(apps)@),
            was_loaded == (match last_position(old(apps)@, app_id, old(apps)@.len() as int) {
                Some(p) => Some(old(apps)@[p].achievements_loaded),
                None => None,
            }),
            final(apps)@ == (match last_position(old(apps)@, app_id, old(apps)@.len() as int) {
                Some(p) => old(apps)@.update(p, with_counts(old(apps)@[p], total, unlocked)),
                None => old(apps)@,
            }),
    {
        let ghost before = apps@;
        let position = self.get(apps, app_id);
        proof {
            lemma_last_position_bounds(before, app_id, before.len() as int);
        }
        let p = match position {
            Some(p) => p,
            None => {
                return None;
            },
        };
        let was_loaded = apps[p].achievements_loaded;
        let is_synthetic = apps[p].is_synthetic;
        apps[p].set_counts(total, unlocked, true);
        proof {
            let x = with_counts(before[p as int], total, unlocked);
            assert(apps@ =~= before.update(p as int, x));
            lemma_update_tally(before, p as int, x, before.len() as int);
            assert forall|id: u32| #[trigger] last_position(apps@, id, apps@.len() as int) == last_position(
                before,
                id,
                before.len() as int,
            ) by {
                lemma_update_keeps_positions(before, p as int, x, id, before.len() as int);
            }
            assert(built_index(apps@).0 =~= built_index(before).0);
            lemma_tally_bounds(before, before.len() as int);
            lemma_tally_bounds(apps@, apps@.len() as int);
        }
        self.record_update(was_loaded, true, is_synthetic);
        proof {
            assert(built_index(apps@).1 == (if !was_loaded && !is_synthetic {
                (built_index(before).1 + 1) as u32
            } else {
                built_index(before).1
            }));
            assert(built_index(apps@).2 == built_index(before).2);
        }
        Some(was_loaded)
    }

    /// Writes counts read from Steam into the game with `app_id`: always when
    /// `overwrite`, else only while its counts are unknown. Returns whether the
    /// game's counts were known before, or `None` when no game has that id.
    pub fn load_counts(
        &mut self,
        apps: &mut Vec<AppRecord>,
        app_id: u32,
        total: u32,
        unlocked: u32,
        overwrite: bool,
    ) -> (was_loaded: Option<bool>)
        requires
            old(apps)@.len() <= u32::MAX,
            tracks(old(self)@, old(apps)@),
        ensures
            final(self)@.1 == old(self)@.1,
            final(self)@.0 is Some,
            tracks(final(self)@, final(apps)@),
            was_loaded == (match last_position(old(apps)@, app_id, old(apps)@.len() as int) {
                Some(p) => Some(old(apps)@[p].achievements_loaded),
                None => None,
            }),
            final(apps)@ == (match last_position(old(apps)@, app_id, old(apps)@.len() as int) {
                Some(p) => if overwrite || !old(apps)@[p].achievements_loaded {
                    old(apps)@.update(p, with_counts(old(apps)@[p], total, unlocked))
                } else {
                    old(apps)@
                },
                None => old(apps)@,
            }),
    {
        let ghost before = apps@;
        let position = self.get(apps, app_id);
        proof {
            lemma_last_position_bounds(before, app_id, before.len() as int);
        }
        match position {
            Some(p) => {
                let was_loaded = apps[p].achievements_loaded;
                if overwrite || !was_loaded {
                    self.update(apps, app_id, total, unlocked);
                }
                Some(was_loaded)
            },
            None => None,
        }
    }
}

proof fn lemma_last_position_bounds(apps: Seq<AppRecord>, id: u32, n: int)
    requires
        0 <= n <= apps.len(),
    ensures
        last_position(apps, id, n) matches Some(p) ==> 0 <= p < n && apps[p].app_id == id,
    decreases n,
{
    if n > 0 {
        lemma_last_position_bounds(apps, id, n - 1);
    }
}

/// Which hint the search bar shows.
#[derive(Clone, Copy, Debug, PartialEq, Eq)]
pub enum SearchHint {
    /// "Achievement or stat..." on a game's page.
    Achievements,
    /// "Name or AppId (Ctrl+K)" on the list.
    Apps,
}

/// The window's controls for the page shown.
#[derive(Clone, Copy, Debug, PartialEq, Eq)]
pub struct PageChrome {
    pub sidebar_button_visible: bool,
    pub sidebar_button_sensitive: bool,
    pub search_sensitive: bool,
    pub back_visible: bool,
    pub refresh_enabled: bool,
    /// The search text is emptied.
    pub clear_search: bool,
    /// The search bar's new hint, when it changes.
    pub hint: Option<SearchHint>,
    /// A game named on the command line may be opened now.
    pub may_auto_open: bool,
}

/// The controls for `page` (`loading`, `list`, `profile`, `app`, or any
/// other page): the sidebar only beside the list, the search bar everywhere
/// but the profile, the back button on a game's or the profile's page, and
/// refreshing the list only when it is not hidden behind one.
pub open spec fn page_chrome_spec(page: Seq<char>) -> PageChrome {
    let own_page = page == "app"@ || page == "profile"@;
    let loading = page == "loading"@;
    PageChrome {
        sidebar_button_visible: !own_page,
        sidebar_button_sensitive: page == "list"@,
        search_sensitive: page != "profile"@,
        back_visible: own_page,
        refresh_enabled: !loading && !own_page,
        clear_search: !loading,
        hint: if page == "app"@ {
            Some(SearchHint::Achievements)
        } else if loading || page == "profile"@ {
            None
        } else {
            Some(SearchHint::Apps)
        },
        may_auto_open: page == "list"@,
    }
}

/// The window's controls when the stack shows `page`.
pub fn page_chrome(page: &str) -> (chrome: PageChrome)
    ensures
        chrome == page_chrome_spec(page@),
{
    let is_app = str_equals(page, "app");
    let is_profile = str_equals(page, "profile");
    let is_loading = str_equals(page, "loading");
    let is_list = str_equals(page, "list");
    let own_page = is_app || is_profile;
    PageChrome {
        sidebar_button_visible: !own_page,
        sidebar_button_sensitive: is_list,
        search_sensitive: !is_profile,
        back_visible: own_page,
        refresh_enabled: !is_loading && !own_page,
        clear_search: !is_loading,
        hint: if is_app {
            Some(SearchHint::Achievements)
        } else if is_loading || is_profile {
            None
        } else {
            Some(SearchHint::Apps)
        },
        may_auto_open: is_list,
    }
}

} // verus!
