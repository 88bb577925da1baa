//! Importing progress saved to a file: which saved games can be written,
//! which carry fields the game protects, and what the import reports back.
use vstd::prelude::*;
use std::collections::HashSet;

verus! {

broadcast use vstd::std_specs::hash::group_hash_axioms;

/// Protected apps listed by name before the rest are only counted.
pub const PROTECTED_LISTED: usize = 10;

/// The permission bit of a stat that Steam only lets the game server set.
pub const STAT_PROTECTED_BIT: i32 = 2;

/// A saved game as the import reads it: its id and the permission of each
/// achievement and stat it holds.
pub struct SavedPermissions {
    pub app_id: u32,
    pub achievement_permissions: Vec<i32>,
    pub stat_permissions: Vec<i32>,
}

/// A saved game has protected fields when an achievement has any permission
/// set or a stat has the protected bit.
pub open spec fn protected_spec(achievements: Seq<i32>, stats: Seq<i32>) -> bool {
    (exists|i: int| 0 <= i < achievements.len() && achievements[i] != 0) || (exists|i: int|
        0 <= i < stats.len() && (stats[i] & STAT_PROTECTED_BIT) != 0)
}

/// Whether the saved game holds fields that may not be importable.
pub fn has_protected_fields(saved: &SavedPermissions) -> (r: bool)
    ensures
        r == protected_spec(saved.achievement_permissions@, saved.stat_permissions@),
{
    let mut i: usize = 0;
    while i < saved.achievement_permissions.len()
        invariant
            i <= saved.achievement_permissions@.len(),
            forall|k: int| 0 <= k < i ==> saved.achievement_permissions@[k] == 0,
        decreases saved.achievement_permissions.len() - i,
    {
        if saved.achievement_permissions[i] != 0 {
            return true;
        }
        i = i + 1;
    }
    let mut j: usize = 0;
    while j < saved.stat_permissions.len()
        invariant
            j <= saved.stat_permissions@.len(),
            forall|k: int| 0 <= k < saved.achievement_permissions@.len() ==> saved.achievement_permissions@[k] == 0,
            forall|k: int| 0 <= k < j ==> (saved.stat_permissions@[k] & STAT_PROTECTED_BIT) == 0,
        decreases saved.stat_permissions.len() - j,
    {
        if (saved.stat_permissions[j] & STAT_PROTECTED_BIT) != 0 {
            return true;
        }
        j = j + 1;
    }
    false
}

/// The positions among `first_n` saved apps that are in the library
/// (`present`) or not (`!present`), in order.
pub open spec fn positions_where(app_ids: Seq<u32>, library: Set<u32>, present: bool, n: int) -> Seq<
    usize,
>
    decreases n,
{
    if n <= 0 {
        Seq::empty()
    } else {
        let rest = positions_where(app_ids, library, present, n - 1);
        if library.contains(app_ids[n - 1]) == present {
            rest.push((n - 1) as usize)
        } else {
            rest
        }
    }
}

/// Splits the saved apps into those in the library and those not, by
/// position, keeping the file's order.
pub fn split_by_library(library: &HashSet<u32>, app_ids: &Vec<u32>) -> (split: (Vec<usize>, Vec<usize>))
    ensures
        split.0@ == positions_where(app_ids@, library@, true, app_ids@.len() as int),
        split.1@ == positions_where(app_ids@, library@, false, app_ids@.len() as int),
{
    let mut present: Vec<usize> = Vec::new();
    let mut missing: Vec<usize> = Vec::new();
    let mut i: usize = 0;
    while i < app_ids.len()
        invariant
            i <= app_ids@.len(),
            present@ == positions_where(app_ids@, library@, true, i as int),
            missing@ == positions_where(app_ids@, library@, false, i as int),
        decreases app_ids.len() - i,
    {
        if library.contains(&app_ids[i]) {
            present.push(i);
        } else {
            missing.push(i);
        }
        i = i + 1;
    }
    (present, missing)
}

/// The ids of the saved apps with protected fields.
pub open spec fn protected_ids(saved: Seq<SavedPermissions>) -> Set<u32> {
    Set::new(
        |id: u32|
            exists|i: int|
                0 <= i < saved.len() && saved[i].app_id == id && protected_spec(
                    saved[i].achievement_permissions@,
                    saved[i].stat_permissions@,
                ),
    )
}

/// The positions of the saved apps kept when protected ones are skipped:
/// every app whose id is not that of a protected app, in order.
pub open spec fn kept_positions(saved: Seq<SavedPermissions>, n: int) -> Seq<usize>
    decreases n,
{
    if n <= 0 {
        Seq::empty()
    } else {
        let rest = kept_positions(saved, n - 1);
        if protected_ids(saved).contains(saved[n - 1].app_id) {
            rest
        } else {
            rest.push((n - 1) as usize)
        }
    }
}

/// The positions of the apps with protected fields, in order.
pub open spec fn protected_positions_upto(saved: Seq<SavedPermissions>, n: int) -> Seq<usize>
    decreases n,
{
    if n <= 0 {
        Seq::empty()
    } else {
        let rest = protected_positions_upto(saved, n - 1);
        if protected_spec(saved[n - 1].achievement_permissions@, saved[n - 1].stat_permissions@) {
            rest.push((n - 1) as usize)
        } else {
            rest
        }
    }
}

/// The positions of the saved apps holding protected fields, to be listed
/// in the warning.
pub fn protected_positions(saved: &Vec<SavedPermissions>) -> (positions: Vec<usize>)
    ensures
        positions@ == protected_positions_upto(saved@, saved@.len() as int),
{
    let mut positions: Vec<usize> = Vec::new();
    let mut i: usize = 0;
    while i < saved.len()
        invariant
            i <= saved@.len(),
            positions@ == protected_positions_upto(saved@, i as int),
        decreases saved.len() - i,
    {
        if has_protected_fields(&saved[i]) {
            positions.push(i);
        }
        i = i + 1;
    }
    positions
}

/// The positions kept when the user chose to skip the protected apps.
pub fn skip_protected(saved: &Vec<SavedPermissions>) -> (kept: Vec<usize>)
    ensures
        kept@ == kept_positions(saved@, saved@.len() as int),
{
    let mut ids: HashSet<u32> = HashSet::new();
    let mut i: usize = 0;
    while i < saved.len()
        invariant
            i <= saved@.len(),
            forall|id: u32|
                #[trigger] ids@.contains(id) == exists|k: int|
                    0 <= k < i && saved@[k].app_id == id && protected_spec(
                        saved@[k].achievement_permissions@,
                        saved@[k].stat_permissions@,
                    ),
        decreases saved.len() - i,
    {
        if has_protected_fields(&saved[i]) {
            ids.insert(saved[i].app_id);
        }
        proof {
            assert forall|id: u32|
                #[trigger] ids@.contains(id) == exists|k: int|
                    0 <= k < i + 1 && saved@[k].app_id == id && protected_spec(
                        saved@[k].achievement_permissions@,
                        saved@[k].stat_permissions@,
                    ) by {
                if exists|k: int|
                    0 <= k < i + 1 && saved@[k].app_id == id && protected_spec(
                        saved@[k].achievement_permissions@,
                        saved@[k].stat_permissions@,
                    ) {
                    let k = choose|k: int|
                        0 <= k < i + 1 && saved@[k].app_id == id && protected_spec(
                            saved@[k].achievement_permissions@,
                            saved@[k].stat_permissions@,
                        );
                    if k < i {
                        assert(ids@.contains(id));
                    }
                }
            }
        }
        i = i + 1;
    }
    assert forall|id: u32| #[trigger] ids@.contains(id) == protected_ids(saved@).contains(id) by {}
    let mut kept: Vec<usize> = Vec::new();
    let mut j: usize = 0;
    while j < saved.len()
        invariant
            j <= saved@.len(),
            forall|id: u32| #[trigger] ids@.contains(id) == protected_ids(saved@).contains(id),
            kept@ == kept_positions(saved@, j as int),
        decreases saved.len() - j,
    {
        if !ids.contains(&saved[j].app_id) {
            kept.push(j);
        }
        j = j + 1;
    }
    kept
}

/// Of `n` protected apps, how many are named and how many only counted.
pub fn protected_listing(n: usize) -> (split: (usize, usize))
    ensures
        split.0 == (if n > PROTECTED_LISTED { PROTECTED_LISTED } else { n }),
        split.0 + split.1 == n,
{
    if n > PROTECTED_LISTED {
        (PROTECTED_LISTED, n - PROTECTED_LISTED)
    } else {
        (n, 0)
    }
}

/// What the import reported for one game.
pub struct ImportReport {
    pub achievements_applied: usize,
    pub stats_applied: usize,
    pub skipped_protected: usize,
    pub skipped_unwriteable: usize,
    pub errors: usize,
    pub reset_would_help: bool,
}

/// The totals an import reports: achievements and stats applied, protected
/// and unwriteable fields skipped, errors (a failed game counts one), and the
/// games that would take the import after a stats reset.
pub open spec fn import_totals_upto(replies: Seq<Option<ImportReport>>, n: int) -> (
    int,
    int,
    int,
    int,
    int,
    int,
)
    decreases n,
{
    if n <= 0 {
        (0, 0, 0, 0, 0, 0)
    } else {
        let t = import_totals_upto(replies, n - 1);
        match replies[n - 1] {
            Some(r) => (
                t.0 + r.achievements_applied,
                t.1 + r.stats_applied,
                t.2 + r.skipped_protected,
                t.3 + r.skipped_unwriteable,
                t.4 + r.errors,
                t.5 + (if r.reset_would_help { 1int } else { 0 }),
            ),
            None => (t.0, t.1, t.2, t.3, t.4 + 1, t.5),
        }
    }
}

proof fn lemma_totals_grow(replies: Seq<Option<ImportReport>>, n: int, m: int)
    requires
        0 <= n <= m,
    ensures
        ({
            let a = import_totals_upto(replies, n);
            let b = import_totals_upto(replies, m);
            &&& 0 <= a.0 <= b.0
            &&& 0 <= a.1 <= b.1
            &&& 0 <= a.2 <= b.2
            &&& 0 <= a.3 <= b.3
            &&& 0 <= a.4 <= b.4
            &&& 0 <= a.5 <= b.5
        }),
    decreases m,
{
    if n < m {
        lemma_totals_grow(replies, n, m - 1);
    } else if n > 0 {
        lemma_totals_grow(replies, n - 1, n - 1);
    }
}

/// The import's totals over the replies for each game (`None` for a game
/// that failed whole).
pub fn import_totals(replies: &Vec<Option<ImportReport>>) -> (totals: (usize, usize, usize, usize, usize, usize))
    requires
        ({
            let t = import_totals_upto(replies@, replies@.len() as int);
            &&& t.0 <= usize::MAX
            &&& t.1 <= usize::MAX
            &&& t.2 <= usize::MAX
            &&& t.3 <= usize::MAX
            &&& t.4 <= usize::MAX
            &&& t.5 <= usize::MAX
        }),
    ensures
        ({
            let t = import_totals_upto(replies@, replies@.len() as int);
            &&& totals.0 == t.0
            &&& totals.1 == t.1
            &&& totals.2 == t.2
            &&& totals.3 == t.3
            &&& totals.4 == t.4
            &&& totals.5 == t.5
        }),
{
    let ghost end = import_totals_upto(replies@, replies@.len() as int);
    let mut t: (usize, usize, usize, usize, usize, usize) = (0, 0, 0, 0, 0, 0);
    let mut i: usize = 0;
    while i < replies.len()
        invariant
            i <= replies@.len(),
            end == import_totals_upto(replies@, replies@.len() as int),
            end.0 <= usize::MAX && end.1 <= usize::MAX && end.2 <= usize::MAX && end.3 <= usize::MAX
                && end.4 <= usize::MAX && end.5 <= usize::MAX,
            ({
                let c = import_totals_upto(replies@, i as int);
                &&& t.0 == c.0
                &&& t.1 == c.1
                &&& t.2 == c.2
                &&& t.3 == c.3
                &&& t.4 == c.4
                &&& t.5 == c.5
            }),
        decreases replies.len() - i,
    {
        proof {
            lemma_totals_grow(replies@, i + 1, replies@.len() as int);
        }
        match &replies[i] {
            Some(r) => {
                t = (
                    t.0 + r.achievements_applied,
                    t.1 + r.stats_applied,
                    t.2 + r.skipped_protected,
                    t.3 + r.skipped_unwriteable,
                    t.4 + r.errors,
                    t.5 + if r.reset_would_help { 1 } else { 0 },
                );
            },
            None => {
                t = (t.0, t.1, t.2, t.3, t.4 + 1, t.5);
            },
        }
        i = i + 1;
    }
    t
}

} // verus!
