//! Language choices: the interface's own, and the achievement language of the
//! game on screen.
use vstd::prelude::*;
use vstd::string::StringExecFns;
use crate::text::str_equals;

verus! {

/// The gettext domain of the interface's catalogues.
pub const TEXT_DOMAIN: &'static str = "samrewritten";

/// Marks a literal for extraction without translating it now; it is
/// translated where it is shown.
pub fn tr_noop<'a>(msgid: &'a str) -> (r: &'a str)
    ensures
        r == msgid,
{
    msgid
}

/// A label that carries the English words after the translated ones, unless
/// the translation is the English itself.
pub open spec fn bilingual_text(english: Seq<char>, native: Seq<char>) -> Seq<char> {
    if native == english {
        native
    } else {
        native + " \u{2022} "@ + english
    }
}

/// The label of the menu that changes the interface language, from its English
/// text and the translation in the current language: if the interface came up
/// in a language you cannot read, the English half is how you find your way back.
pub fn bilingual_label(english: &str, native: &str) -> (label: String)
    ensures
        label@ == bilingual_text(english@, native@),
{
    if str_equals(native, english) {
        native.to_owned()
    } else {
        let label = String::from_str(native).concat(" \u{2022} ");
        label.concat(english)
    }
}

/// The lower-case form of an ASCII letter; every other character is its own.
pub open spec fn ascii_lower(c: char) -> u32 {
    if 'A' <= c <= 'Z' {
        (c as u32 + 32) as u32
    } else {
        c as u32
    }
}

/// Equal up to the case of ASCII letters.
pub open spec fn eq_ignore_ascii_case(a: Seq<char>, b: Seq<char>) -> bool {
    a.len() == b.len() && forall|i: int| 0 <= i < a.len() ==> ascii_lower(a[i]) == ascii_lower(b[i])
}

fn lower_code(c: char) -> (r: u32)
    ensures
        r == ascii_lower(c),
{
    let code = c as u32;
    if 65 <= code && code <= 90 {
        code + 32
    } else {
        code
    }
}

/// Whether two strings are equal up to the case of ASCII letters.
pub fn str_eq_ignore_ascii_case(a: &str, b: &str) -> (r: bool)
    ensures
        r == eq_ignore_ascii_case(a@, b@),
{
    let n = a.unicode_len();
    if n != b.unicode_len() {
        return false;
    }
    let mut i: usize = 0;
    while i < n
        invariant
            n == a@.len(),
            n == b@.len(),
            i <= n,
            forall|k: int| 0 <= k < i ==> ascii_lower(a@[k]) == ascii_lower(b@[k]),
        decreases n - i,
    {
        if lower_code(a.get_char(i)) != lower_code(b.get_char(i)) {
            return false;
        }
        i = i + 1;
    }
    true
}

/// Whether some language in `languages` is `code`, up to ASCII case.
pub open spec fn lists_code(languages: Seq<String>, code: Seq<char>) -> bool {
    exists|i: int| 0 <= i < languages.len() && eq_ignore_ascii_case(languages[i]@, code)
}

/// Whether the table knows `language`, up to ASCII case.
pub open spec fn knows_code(table: Seq<(String, String)>, language: Seq<char>) -> bool {
    exists|i: int| 0 <= i < table.len() && eq_ignore_ascii_case(language, table[i].0@)
}

/// The table's rows for the languages the game ships, in table order, each as
/// (code, name) views.
pub open spec fn known_entries(table: Seq<(String, String)>, languages: Seq<String>, n: int) -> Seq<
    (Seq<char>, Seq<char>),
>
    decreases n,
{
    if n <= 0 {
        Seq::empty()
    } else {
        let rest = known_entries(table, languages, n - 1);
        if lists_code(languages, table[n - 1].0@) {
            rest.push((table[n - 1].0@, table[n - 1].1@))
        } else {
            rest
        }
    }
}

/// The game's languages the table does not know, each named by its own code.
pub open spec fn unknown_entries(table: Seq<(String, String)>, languages: Seq<String>, n: int) -> Seq<
    (Seq<char>, Seq<char>),
>
    decreases n,
{
    if n <= 0 {
        Seq::empty()
    } else {
        let rest = unknown_entries(table, languages, n - 1);
        if !knows_code(table, languages[n - 1]@) {
            rest.push((languages[n - 1]@, languages[n - 1]@))
        } else {
            rest
        }
    }
}

/// The menu entries for a game's achievement languages: the table's rows for
/// the languages it ships (stored in the table's spelling, since schemas
/// disagree on case), then the languages the table does not know.
pub open spec fn language_entries(table: Seq<(String, String)>, languages: Seq<String>) -> Seq<
    (Seq<char>, Seq<char>),
> {
    known_entries(table, languages, table.len() as int) + unknown_entries(
        table,
        languages,
        languages.len() as int,
    )
}

/// Index of the first table row whose code is `code` up to ASCII case.
pub open spec fn first_row_for(table: Seq<(String, String)>, code: Seq<char>, n: int) -> Option<int>
    decreases n,
{
    if n <= 0 {
        None
    } else {
        match first_row_for(table, code, n - 1) {
            Some(i) => Some(i),
            None => if eq_ignore_ascii_case(table[n - 1].0@, code) {
                Some(n - 1)
            } else {
                None
            },
        }
    }
}

/// The extra, disabled entry for a pick this game does not ship: the table's
/// name for it, or the pick itself; none when nothing is picked or the pick is
/// among the entries.
pub open spec fn unavailable_entry(
    table: Seq<(String, String)>,
    entries: Seq<(Seq<char>, Seq<char>)>,
    picked: Seq<char>,
) -> Option<Seq<char>> {
    if picked.len() == 0 || exists|i: int| 0 <= i < entries.len() && entries[i].0 == picked {
        None
    } else {
        match first_row_for(table, picked, table.len() as int) {
            Some(i) => Some(table[i].1@),
            None => Some(picked),
        }
    }
}

/// The characters of an optional string.
pub open spec fn opt_view(o: Option<String>) -> Option<Seq<char>> {
    match o {
        Some(s) => Some(s@),
        None => None,
    }
}

/// The entries of the achievement-language menu for a game shipping
/// `languages`, with `table` the known (code, name) rows and `picked` the
/// saved choice; and the extra entry that keeps an unavailable pick visible.
pub fn achievement_language_entries(
    table: &Vec<(String, String)>,
    languages: &Vec<String>,
    picked: &str,
) -> (r: (Vec<(String, String)>, Option<String>))
    ensures
        r.0@.map_values(|e: (String, String)| (e.0@, e.1@)) == language_entries(table@, languages@),
        opt_view(r.1) == unavailable_entry(table@, language_entries(table@, languages@), picked@),
{
    let ghost t = table@;
    let ghost l = languages@;
    let mut entries: Vec<(String, String)> = Vec::new();
    let mut i: usize = 0;
    while i < table.len()
        invariant
            t == table@,
            l == languages@,
            i <= t.len(),
            entries@.map_values(|e: (String, String)| (e.0@, e.1@)) == known_entries(t, l, i as int),
        decreases table.len() - i,
    {
        let mut j: usize = 0;
        let mut listed = false;
        while j < languages.len() && !listed
            invariant
                t == table@,
                l == languages@,
                i < t.len(),
                j <= l.len(),
                listed == exists|k: int| 0 <= k < j && eq_ignore_ascii_case(l[k]@, t[i as int].0@),
            decreases l.len() - j, if listed { 0int } else { 1int },
        {
            if str_eq_ignore_ascii_case(languages[j].as_str(), table[i].0.as_str()) {
                listed = true;
            }
            j = j + 1;
        }
        proof {
            assert(listed == lists_code(l, t[i as int].0@));
        }
        let ghost before = entries@;
        if listed {
            entries.push((table[i].0.clone(), table[i].1.clone()));
        }
        proof {
            assert(entries@.map_values(|e: (String, String)| (e.0@, e.1@)) =~= known_entries(
                t,
                l,
                i + 1,
            ));
        }
        i = i + 1;
    }
    let ghost known_len = entries@.len();
    let mut k: usize = 0;
    while k < languages.len()
        invariant
            t == table@,
            l == languages@,
            k <= l.len(),
            entries@.map_values(|e: (String, String)| (e.0@, e.1@)) == known_entries(
                t,
                l,
                t.len() as int,
            ) + unknown_entries(t, l, k as int),
        decreases languages.len() - k,
    {
        let mut j: usize = 0;
        let mut known = false;
        while j < table.len() && !known
            invariant
                t == table@,
                l == languages@,
                k < l.len(),
                j <= t.len(),
                known == exists|m: int| 0 <= m < j && eq_ignore_ascii_case(l[k as int]@, t[m].0@),
            decreases t.len() - j, if known { 0int } else { 1int },
        {
            if str_eq_ignore_ascii_case(languages[k].as_str(), table[j].0.as_str()) {
                known = true;
            }
            j = j + 1;
        }
        proof {
            assert(known == knows_code(t, l[k as int]@));
        }
        let ghost old_views = entries@.map_values(|e: (String, String)| (e.0@, e.1@));
        if !known {
            entries.push((languages[k].clone(), languages[k].clone()));
            proof {
                assert(entries@.map_values(|e: (String, String)| (e.0@, e.1@)) =~= old_views.push(
                    (l[k as int]@, l[k as int]@),
                ));
            }
        } else {
            proof {
                assert(entries@.map_values(|e: (String, String)| (e.0@, e.1@)) =~= old_views);
            }
        }
        proof {
            assert(entries@.map_values(|e: (String, String)| (e.0@, e.1@)) =~= known_entries(
                t,
                l,
                t.len() as int,
            ) + unknown_entries(t, l, k + 1));
        }
        k = k + 1;
    }
    let ghost views = entries@.map_values(|e: (String, String)| (e.0@, e.1@));
    assert(views == language_entries(t, l));
    if picked.unicode_len() == 0 {
        return (entries, None);
    }
    let mut present = false;
    let mut e: usize = 0;
    while e < entries.len() && !present
        invariant
            e <= entries@.len(),
            views == entries@.map_values(|x: (String, String)| (x.0@, x.1@)),
            present == exists|m: int| 0 <= m < e && views[m].0 == picked@,
        decreases entries@.len() - e, if present { 0int } else { 1int },
    {
        proof {
            assert(views[e as int].0 == entries@[e as int].0@);
        }
        if str_equals(entries[e].0.as_str(), picked) {
            present = true;
        }
        e = e + 1;
    }
    if present {
        return (entries, None);
    }
    let mut row: usize = 0;
    let mut found: Option<usize> = None;
    while row < table.len() && found.is_none()
        invariant
            t == table@,
            row <= t.len(),
            found matches Some(f) ==> first_row_for(t, picked@, row as int) == Some(f as int)
                && f < t.len(),
            found is None ==> first_row_for(t, picked@, row as int) is None,
        decreases t.len() - row, if found is Some { 0int } else { 1int },
    {
        if str_eq_ignore_ascii_case(table[row].0.as_str(), picked) {
            found = Some(row);
        }
        row = row + 1;
    }
    proof {
        lemma_first_row_stable(t, picked@, row as int);
    }
    let name = match found {
        Some(f) => table[f].1.clone(),
        None => picked.to_owned(),
    };
    (entries, Some(name))
}

/// Once found, the first matching row stays the first.
proof fn lemma_first_row_stable(table: Seq<(String, String)>, code: Seq<char>, n: int)
    requires
        0 <= n <= table.len(),
    ensures
        first_row_for(table, code, n) matches Some(i) ==> first_row_for(
            table,
            code,
            table.len() as int,
        ) == Some(i),
    decreases table.len() - n,
{
    if n < table.len() {
        lemma_first_row_stable(table, code, n + 1);
    }
}

/// Where the achievement-language menu takes its languages from.
pub struct AchievementLanguages {
    from_fetch: bool,
}

impl AchievementLanguages {
    /// Whether the menu holds the orchestrator's answer rather than this
    /// process's own provisional read.
    pub closed spec fn is_from_fetch(&self) -> bool {
        self.from_fetch
    }

    /// A menu that has not heard from the orchestrator yet.
    pub fn new() -> (menu: Self)
        ensures
            !menu.is_from_fetch(),
    {
        AchievementLanguages { from_fetch: false }
    }

    /// Opening another game's details forgets the last game's answer.
    pub fn reset(&mut self)
        ensures
            !final(self).is_from_fetch(),
    {
        self.from_fetch = false;
    }
}

/// Whether this process's own read of a game's languages goes into the menu:
/// only until the orchestrator answers, since it may see a different Steam
/// install and its answer wins.
pub fn set_achievement_languages_provisional(menu: &AchievementLanguages, languages: &[String]) -> (fill: bool)
    ensures
        fill == !menu.is_from_fetch(),
{
    !menu.from_fetch
}

/// Whether the orchestrator's answer goes into the menu: an empty answer means
/// it could not read the schema, which is no better than our own read, and
/// changes nothing.
pub fn set_achievement_languages(menu: &mut AchievementLanguages, languages: &[String]) -> (fill: bool)
    ensures
        fill == (languages@.len() > 0),
        final(menu).is_from_fetch() == (old(menu).is_from_fetch() || languages@.len() > 0),
{
    if languages.len() == 0 {
        return false;
    }
    menu.from_fetch = true;
    true
}

} // verus!
