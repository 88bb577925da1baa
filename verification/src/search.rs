//! What typed text means: an app id in the library's search bar, a pasted
//! SteamID64 in the friend picker, and which friend's count to ask for next.
use vstd::prelude::*;
use std::collections::HashSet;
use crate::library::{contains_text, str_contains, to_lowercase, unicode_lowercase};

verus! {

broadcast use vstd::std_specs::hash::group_hash_axioms;

/// The smallest SteamID64 of an individual account.
pub const STEAMID64_BASE: u64 = 76561197960265728;

/// Whether `c` is an ASCII decimal digit.
pub open spec fn is_digit(c: char) -> bool {
    '0' <= c <= '9'
}

/// The value of a digit.
pub open spec fn digit_value(c: char) -> int {
    (c as int) - ('0' as int)
}

/// The value of a run of decimal digits, most significant first.
pub open spec fn digits_value(s: Seq<char>) -> int
    decreases s.len(),
{
    if s.len() == 0 {
        0
    } else {
        digits_value(s.drop_last()) * 10 + digit_value(s.last())
    }
}

/// How Rust reads an unsigned integer no larger than `max` from text: an
/// optional `+`, then one or more decimal digits, nothing else; a value past
/// `max` is an error.
pub open spec fn parse_unsigned_spec(s: Seq<char>, max: int) -> Option<int> {
    let body = unsigned_body(s);
    if body.len() > 0 && all_digits(body) && digits_value(body) <= max {
        Some(digits_value(body))
    } else {
        None
    }
}

/// The text after an optional leading `+`.
pub open spec fn unsigned_body(s: Seq<char>) -> Seq<char> {
    if s.len() > 0 && s[0] == '+' {
        s.drop_first()
    } else {
        s
    }
}

/// Whether every character is a decimal digit.
pub open spec fn all_digits(s: Seq<char>) -> bool {
    forall|i: int| 0 <= i < s.len() ==> is_digit(#[trigger] s[i])
}

proof fn lemma_digits_value_nonneg(s: Seq<char>)
    requires
        forall|i: int| 0 <= i < s.len() ==> is_digit(s[i]),
    ensures
        digits_value(s) >= 0,
    decreases s.len(),
{
    if s.len() > 0 {
        lemma_digits_value_nonneg(s.drop_last());
    }
}

proof fn lemma_digits_value_grows(s: Seq<char>, n: int)
    requires
        0 <= n <= s.len(),
        forall|i: int| 0 <= i < s.len() ==> is_digit(s[i]),
    ensures
        digits_value(s.take(n)) <= digits_value(s),
    decreases s.len() - n,
{
    if n < s.len() {
        lemma_digits_value_grows(s, n + 1);
        assert(s.take(n + 1).drop_last() =~= s.take(n));
        lemma_digits_value_nonneg(s.take(n));
    } else {
        assert(s.take(n) =~= s);
    }
}

/// The decimal digits of `n`, most significant first, as `to_string` writes them.
pub open spec fn decimal_text(n: nat) -> Seq<char>
    decreases n,
{
    if n < 10 {
        seq![((n + 48) as u8) as char]
    } else {
        decimal_text(n / 10).push((((n % 10) + 48) as u8) as char)
    }
}

proof fn lemma_decimal_text(n: nat)
    ensures
        decimal_text(n).len() > 0,
        all_digits(decimal_text(n)),
        digits_value(decimal_text(n)) == n,
        decimal_text(n)[0] != '+',
    decreases n,
{
    if n < 10 {
        let c = ((n + 48) as u8) as char;
        assert(c as int == n + 48);
        assert(decimal_text(n).drop_last() =~= Seq::<char>::empty());
        assert(digits_value(Seq::<char>::empty()) == 0);
        assert(decimal_text(n).last() == c);
        assert(digit_value(c) == n);
        assert(digits_value(decimal_text(n)) == digits_value(decimal_text(n).drop_last()) * 10 + digit_value(c));
    } else {
        lemma_decimal_text(n / 10);
        let t = decimal_text(n / 10);
        let c = (((n % 10) + 48) as u8) as char;
        assert(c as int == n % 10 + 48);
        assert(decimal_text(n).drop_last() =~= t);
        assert((n / 10) * 10 + n % 10 == n) by (nonlinear_arith);
        assert(decimal_text(n).last() == c);
        assert(digit_value(c) == n % 10);
        assert(digits_value(decimal_text(n)) == digits_value(t) * 10 + digit_value(c));
        assert forall|i: int| 0 <= i < decimal_text(n).len() implies is_digit(#[trigger] decimal_text(n)[i]) by {
            if i < t.len() {
                assert(decimal_text(n)[i] == t[i]);
            }
        }
    }
}

/// Typing an app's id into the search bar finds it: its decimal text reads
/// back as the id.
pub proof fn lemma_typed_id_reads_back(id: u32)
    ensures
        parse_unsigned_spec(decimal_text(id as nat), u32::MAX as int) == Some(id as int),
{
    lemma_decimal_text(id as nat);
}

/// Reads an unsigned integer no larger than `max` from `text`.
fn parse_unsigned(text: &str, max: u64) -> (value: Option<u64>)
    ensures
        (match value {
            Some(v) => Some(v as int),
            None => None,
        }) == parse_unsigned_spec(text@, max as int),
{
    let n = text.unicode_len();
    let mut start: usize = 0;
    if n > 0 && text.get_char(0) == '+' {
        start = 1;
    }
    let ghost body = unsigned_body(text@);
    if start == n {
        return None;
    }
    let mut value: u64 = 0;
    let mut i: usize = start;
    while i < n
        invariant
            n == text@.len(),
            start <= i <= n,
            start < n,
            body == text@.skip(start as int),
            body == unsigned_body(text@),
            forall|k: int| 0 <= k < i - start ==> is_digit(body[k]),
            value == digits_value(body.take(i - start)),
            value <= max,
        decreases n - i,
    {
        let c = text.get_char(i);
        proof {
            assert(body[i - start] == c);
            assert(body.take(i - start + 1).drop_last() =~= body.take(i - start));
            assert(body.take(i - start + 1).last() == c);
        }
        if !('0' <= c && c <= '9') {
            proof {
                assert(!is_digit(body[i - start]));
                assert(!(forall|j: int| 0 <= j < body.len() ==> is_digit(body[j])));
                assert(parse_unsigned_spec(text@, max as int) is None);
            }
            return None;
        }
        let d: u64 = (c as u32 - '0' as u32) as u64;
        if d > max || value > (max - d) / 10 {
            proof {
                assert(value * 10 + d > max) by (nonlinear_arith)
                    requires
                        d > max || value > (max - d) / 10,
                        d <= 9,
                ;
                assert(digit_value(c) == d);
                assert(digits_value(body.take(i - start + 1)) == value * 10 + d);
                if forall|j: int| 0 <= j < body.len() ==> is_digit(body[j]) {
                    lemma_digits_value_grows(body, i - start + 1);
                    assert(digits_value(body) > max);
                }
                assert(parse_unsigned_spec(text@, max as int) is None);
            }
            return None;
        }
        value = value * 10 + d;
        i = i + 1;
    }
    proof {
        assert(body.take(n - start) =~= body);
    }
    Some(value)
}

/// The app id typed into the library's search bar, if the text is one: the
/// grid then shows a placeholder card for it.
pub fn parse_app_id(text: &str) -> (id: Option<u32>)
    ensures
        (match id {
            Some(v) => Some(v as int),
            None => None,
        }) == parse_unsigned_spec(text@, u32::MAX as int),
{
    match parse_unsigned(text, u32::MAX as u64) {
        Some(v) => Some(v as u32),
        None => None,
    }
}

/// A SteamID64 read from text, or 0 when the text is not a number.
pub fn parse_steam_id(text: &str) -> (id: u64)
    ensures
        id == (match parse_unsigned_spec(text@, u64::MAX as int) {
            Some(v) => v,
            None => 0,
        }),
{
    match parse_unsigned(text, u64::MAX) {
        Some(v) => v,
        None => 0,
    }
}

/// Whether a row of the friend picker stays visible for the query: the row
/// for a pasted id once the trimmed query is a SteamID64, a friend when the
/// query is empty or found in the friend's search text (already lower case).
pub open spec fn friend_row_visible_spec(
    is_custom: bool,
    trimmed: Seq<char>,
    search_text: Seq<char>,
) -> bool {
    if is_custom {
        parse_unsigned_spec(trimmed, u64::MAX as int) matches Some(v) && v >= STEAMID64_BASE
    } else {
        trimmed.len() == 0 || contains_text(search_text, unicode_lowercase(trimmed))
    }
}

/// Whether a row of the friend picker is shown; `trimmed` is the query with
/// surrounding whitespace taken off.
pub fn friend_row_visible(is_custom: bool, trimmed: &str, search_text: &str) -> (visible: bool)
    ensures
        visible == friend_row_visible_spec(is_custom, trimmed@, search_text@),
{
    if is_custom {
        return match parse_unsigned(trimmed, u64::MAX) {
            Some(v) => v >= STEAMID64_BASE,
            None => false,
        };
    }
    if trimmed.unicode_len() == 0 {
        return true;
    }
    let lowered = to_lowercase(trimmed);
    str_contains(search_text, lowered.as_str())
}

/// What to do when the friend picker's query changes.
#[derive(Clone, Copy, Debug, PartialEq, Eq)]
pub enum PastedId {
    /// Not a SteamID64: clear the pasted row's name and avatar.
    Clear,
    /// The id whose name and avatar were already asked for.
    Unchanged,
    /// A new SteamID64: ask for its name and avatar.
    Resolve,
}

/// The pasted-id row's step: its id, what to do, and the id last resolved.
pub open spec fn pasted_step(id: u64, last_resolved: u64) -> (PastedId, u64) {
    if id < STEAMID64_BASE {
        (PastedId::Clear, 0)
    } else if id == last_resolved {
        (PastedId::Unchanged, last_resolved)
    } else {
        (PastedId::Resolve, id)
    }
}

/// Reads the query (already trimmed) as the pasted row's id and decides
/// whether to look it up; returns the id, the step and the new last resolved id.
pub fn pasted_id(trimmed: &str, last_resolved: u64) -> (r: (u64, PastedId, u64))
    ensures
        r.0 == (match parse_unsigned_spec(trimmed@, u64::MAX as int) {
            Some(v) => v,
            None => 0,
        }),
        (r.1, r.2) == pasted_step(r.0, last_resolved),
{
    let id = parse_steam_id(trimmed);
    if id < STEAMID64_BASE {
        (id, PastedId::Clear, 0)
    } else if id == last_resolved {
        (id, PastedId::Unchanged, last_resolved)
    } else {
        (id, PastedId::Resolve, id)
    }
}

/// A row of the friend picker on screen: its place in the list, its friend's
/// SteamID64 (0 when unknown), and whether it is the pasted-id row.
#[derive(Clone, Copy, Debug, PartialEq, Eq)]
pub struct ShownFriend {
    pub position: u32,
    pub steam_id: u64,
    pub is_custom: bool,
}

/// Whether a shown row still needs its count.
pub open spec fn needs_count(row: ShownFriend, cached: Set<u64>) -> bool {
    !row.is_custom && row.steam_id != 0 && !cached.contains(row.steam_id)
}

/// The friend whose count to ask for next: the topmost shown row still
/// without one (the first of equals).
pub open spec fn next_to_count_upto(rows: Seq<ShownFriend>, cached: Set<u64>, n: int) -> Option<
    ShownFriend,
>
    decreases n,
{
    if n <= 0 {
        None
    } else {
        let best = next_to_count_upto(rows, cached, n - 1);
        let row = rows[n - 1];
        if needs_count(row, cached) && (match best {
            None => true,
            Some(b) => row.position < b.position,
        }) {
            Some(row)
        } else {
            best
        }
    }
}

/// The SteamID64 to ask a count for next, if any.
pub fn next_to_count(rows: &Vec<ShownFriend>, cached: &HashSet<u64>) -> (sid: Option<u64>)
    ensures
        sid == (match next_to_count_upto(rows@, cached@, rows@.len() as int) {
            Some(row) => Some(row.steam_id),
            None => None,
        }),
{
    let mut best: Option<ShownFriend> = None;
    let mut i: usize = 0;
    while i < rows.len()
        invariant
            i <= rows@.len(),
            best == next_to_count_upto(rows@, cached@, i as int),
        decreases rows.len() - i,
    {
        let row = rows[i];
        if !row.is_custom && row.steam_id != 0 && !cached.contains(&row.steam_id) {
            let better = match best {
                None => true,
                Some(b) => row.position < b.position,
            };
            if better {
                best = Some(row);
            }
        }
        i = i + 1;
    }
    match best {
        Some(row) => Some(row.steam_id),
        None => None,
    }
}

} // verus!
