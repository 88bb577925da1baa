//! The history of changes made to games' progress: how each recorded
//! operation is titled and described, what an undo picks, and which changes
//! an undo may file as put back.
use vstd::prelude::*;
use std::collections::HashMap;
use crate::unlock_queue::QueueCandidate;

verus! {

broadcast use vstd::std_specs::hash::group_hash_axioms;

/// Rows drawn when the history opens, and added per "show more".
pub const FIRST_ROWS: usize = 25;

pub const MORE_ROWS: usize = 100;

/// Changes listed under an expanded row; the rest are counted.
pub const MAX_CHANGES: usize = 25;

/// What kind of operation was recorded.
#[derive(Clone, Copy, Debug, PartialEq, Eq)]
pub enum Op {
    StatEdit,
    ResetApp,
    BulkLock,
    BulkUnlock,
    Import,
    Revert,
    /// Any other operation.
    Other,
}

/// What one recorded change did.
#[derive(Clone, Copy, Debug, PartialEq, Eq)]
pub enum ChangeKind {
    /// An achievement set to unlocked (`after`) or locked.
    Achievement { after: bool },
    IntStat,
    FloatStat,
    /// Something recorded only as a description.
    Opaque,
}

/// A recorded change as the history reads it.
#[derive(Clone, Copy, Debug, PartialEq, Eq)]
pub struct ChangeState {
    pub kind: ChangeKind,
    pub undoable: bool,
    pub reverted: bool,
}

/// A recorded operation as the history reads it.
pub struct OperationSummary {
    pub op: Op,
    /// How many games the operation touched.
    pub apps: usize,
    pub changes: Vec<ChangeState>,
    pub reverted: bool,
    /// The Steam account it was made under; 0 when unknown.
    pub account: u64,
}

/// How a row of the history is titled.
#[derive(Clone, Copy, Debug, PartialEq, Eq)]
pub enum Title {
    /// "Unlocked {count} achievement(s) in {app}"
    Unlocked(usize),
    /// "Locked {count} achievement(s) in {app}"
    Locked(usize),
    /// "Changed {count} achievement(s) in {app}"
    ChangedAchievements(usize),
    /// "Changed {count} stat(s) in {app}"
    ChangedStats(usize),
    /// "Reset {app}"
    Reset,
    /// "Unlocked everything in {app}"
    UnlockedEverything,
    /// "Wrote a file's progress into {app}"
    Imported,
    /// "Changed {count} thing(s) in {app}"
    ChangedThings(usize),
}

/// Whether a change is to an achievement.
pub open spec fn is_achievement(c: ChangeState) -> bool {
    c.kind is Achievement
}

/// The achievement changes among `changes`.
pub open spec fn achievement_changes(changes: Seq<ChangeState>) -> Seq<ChangeState> {
    changes.filter(|c: ChangeState| is_achievement(c))
}

/// The title of an operation: its achievement changes when it has any (all
/// unlocking, all locking, or mixed), else by the kind of operation.
pub open spec fn title_of(op: Op, changes: Seq<ChangeState>) -> Title {
    let ach = achievement_changes(changes);
    if ach.len() > 0 {
        if forall|i: int| 0 <= i < ach.len() ==> ach[i].kind == (ChangeKind::Achievement { after: true }) {
            Title::Unlocked(ach.len() as usize)
        } else if forall|i: int|
            0 <= i < ach.len() ==> ach[i].kind == (ChangeKind::Achievement { after: false }) {
            Title::Locked(ach.len() as usize)
        } else {
            Title::ChangedAchievements(ach.len() as usize)
        }
    } else {
        match op {
            Op::StatEdit => Title::ChangedStats(changes.len() as usize),
            Op::ResetApp => Title::Reset,
            Op::BulkLock => Title::Reset,
            Op::BulkUnlock => Title::UnlockedEverything,
            Op::Import => Title::Imported,
            _ => Title::ChangedThings(changes.len() as usize),
        }
    }
}

/// The title of a row.
pub fn title_for(operation: &OperationSummary) -> (title: Title)
    ensures
        title == title_of(operation.op, operation.changes@),
{
    let ghost changes = operation.changes@;
    let mut count: usize = 0;
    let mut unlocking = true;
    let mut locking = true;
    let mut i: usize = 0;
    while i < operation.changes.len()
        invariant
            changes == operation.changes@,
            i <= changes.len(),
            count == achievement_changes(changes.take(i as int)).len(),
            count <= i,
            unlocking == forall|k: int|
                0 <= k < achievement_changes(changes.take(i as int)).len() ==> achievement_changes(
                    changes.take(i as int),
                )[k].kind == (ChangeKind::Achievement { after: true }),
            locking == forall|k: int|
                0 <= k < achievement_changes(changes.take(i as int)).len() ==> achievement_changes(
                    changes.take(i as int),
                )[k].kind == (ChangeKind::Achievement { after: false }),
        decreases changes.len() - i,
    {
        let c = operation.changes[i];
        let ghost before = achievement_changes(changes.take(i as int));
        proof {
            assert(changes.take(i + 1) =~= changes.take(i as int).push(c));
            reveal(Seq::filter);
            assert(changes.take(i + 1).drop_last() =~= changes.take(i as int));
        }
        match c.kind {
            ChangeKind::Achievement { after } => {
                count = count + 1;
                if !after {
                    unlocking = false;
                }
                if after {
                    locking = false;
                }
                proof {
                    let now = achievement_changes(changes.take(i + 1));
                    assert(now =~= before.push(c));
                    assert(now[before.len() as int] == c);
                    assert(forall|k: int| 0 <= k < before.len() ==> now[k] == before[k]);
                    if !after {
                        assert(now[before.len() as int].kind != (ChangeKind::Achievement { after: true }));
                    } else {
                        assert(now[before.len() as int].kind != (ChangeKind::Achievement { after: false }));
                    }
                }
            },
            _ => {
                proof {
                    assert(achievement_changes(changes.take(i + 1)) =~= before);
                }
            },
        }
        i = i + 1;
    }
    assert(changes.take(changes.len() as int) =~= changes);
    if count > 0 {
        if unlocking {
            Title::Unlocked(count)
        } else if locking {
            Title::Locked(count)
        } else {
            Title::ChangedAchievements(count)
        }
    } else {
        match operation.op {
            Op::StatEdit => Title::ChangedStats(operation.changes.len()),
            Op::ResetApp => Title::Reset,
            Op::BulkLock => Title::Reset,
            Op::BulkUnlock => Title::UnlockedEverything,
            Op::Import => Title::Imported,
            _ => Title::ChangedThings(operation.changes.len()),
        }
    }
}

/// An operation made under another Steam account cannot be undone from here;
/// an unknown account on either side matches.
pub open spec fn same_account(current: u64, account: u64) -> bool {
    current == 0 || account == 0 || account == current
}

/// Whether the operation was made under the signed-in account `current`.
pub fn is_this_account(current: u64, account: u64) -> (r: bool)
    ensures
        r == same_account(current, account),
{
    current == 0 || account == 0 || account == current
}

/// The last part of a row's subtitle.
#[derive(Clone, Copy, Debug, PartialEq, Eq)]
pub enum Status {
    /// "Undone"
    Undone,
    /// "partly undone"
    PartlyUndone,
    /// "cannot be undone from here"
    CannotUndo,
    /// "another Steam account"
    OtherAccount,
    /// Nothing to add.
    Plain,
}

/// Where an operation stands: undone whole, undone in part, with nothing that
/// can be undone, made under another account, or none of these.
pub open spec fn status_of(reverted: bool, changes: Seq<ChangeState>, same: bool) -> Status {
    if reverted {
        Status::Undone
    } else if exists|i: int| 0 <= i < changes.len() && changes[i].reverted {
        Status::PartlyUndone
    } else if !(exists|i: int| 0 <= i < changes.len() && changes[i].undoable) {
        Status::CannotUndo
    } else if !same {
        Status::OtherAccount
    } else {
        Status::Plain
    }
}

/// The status part of a row's subtitle, for the signed-in account `current`.
pub fn status_for(operation: &OperationSummary, current: u64) -> (status: Status)
    ensures
        status == status_of(
            operation.reverted,
            operation.changes@,
            same_account(current, operation.account),
        ),
{
    if operation.reverted {
        return Status::Undone;
    }
    let ghost changes = operation.changes@;
    let mut any_reverted = false;
    let mut any_undoable = false;
    let mut i: usize = 0;
    while i < operation.changes.len()
        invariant
            changes == operation.changes@,
            i <= changes.len(),
            any_reverted == exists|k: int| 0 <= k < i && changes[k].reverted,
            any_undoable == exists|k: int| 0 <= k < i && changes[k].undoable,
        decreases changes.len() - i,
    {
        let c = operation.changes[i];
        if c.reverted {
            any_reverted = true;
        }
        if c.undoable {
            any_undoable = true;
        }
        i = i + 1;
    }
    if any_reverted {
        Status::PartlyUndone
    } else if !any_undoable {
        Status::CannotUndo
    } else if !is_this_account(current, operation.account) {
        Status::OtherAccount
    } else {
        Status::Plain
    }
}

/// The changes an undo puts back: the one clicked (`index`), or all of them,
/// keeping only those that can be undone and are not undone yet.
pub open spec fn picked_spec(changes: Seq<ChangeState>, index: Option<usize>, n: int) -> Seq<usize>
    decreases n,
{
    if n <= 0 {
        Seq::empty()
    } else {
        let rest = picked_spec(changes, index, n - 1);
        let k = n - 1;
        let c = changes[k];
        if c.undoable && !c.reverted && (match index {
            Some(i) => i == k,
            None => true,
        }) {
            rest.push(k as usize)
        } else {
            rest
        }
    }
}

/// The positions of the changes an undo puts back.
pub fn picked_changes(changes: &Vec<ChangeState>, index: Option<usize>) -> (picked: Vec<usize>)
    ensures
        picked@ == picked_spec(changes@, index, changes@.len() as int),
{
    let mut picked: Vec<usize> = Vec::new();
    let mut k: usize = 0;
    while k < changes.len()
        invariant
            k <= changes@.len(),
            picked@ == picked_spec(changes@, index, k as int),
        decreases changes.len() - k,
    {
        let c = changes[k];
        let chosen = match index {
            Some(i) => i == k,
            None => true,
        };
        if c.undoable && !c.reverted && chosen {
            picked.push(k);
        }
        k = k + 1;
    }
    picked
}

/// Whether an undo button is offered: for the whole operation (`index` none)
/// when some change can still be undone, for one change when it can, and only
/// under the account it was made with.
pub open spec fn undo_offered_spec(
    changes: Seq<ChangeState>,
    index: Option<usize>,
    whole_undoable: bool,
    same: bool,
) -> bool {
    same && match index {
        None => whole_undoable,
        Some(i) => i < changes.len() && changes[i as int].undoable && !changes[i as int].reverted,
    }
}

/// Whether to offer an undo button; `whole_undoable` says whether the
/// operation as a whole can still be undone.
pub fn undo_offered(
    operation: &OperationSummary,
    index: Option<usize>,
    whole_undoable: bool,
    current: u64,
) -> (offered: bool)
    ensures
        offered == undo_offered_spec(
            operation.changes@,
            index,
            whole_undoable,
            same_account(current, operation.account),
        ),
{
    let available = match index {
        None => whole_undoable,
        Some(i) => i < operation.changes.len() && operation.changes[i].undoable
            && !operation.changes[i].reverted,
    };
    available && is_this_account(current, operation.account)
}

/// The name a row gives a game: the library's name when it has a nonempty
/// one, else the name recorded with the change when there is one; `None`
/// leaves "App {id}".
pub open spec fn app_label_spec(names: Map<u32, String>, app_id: u32, recorded: Seq<char>) -> Option<
    Seq<char>,
> {
    if names.contains_key(app_id) && names[app_id]@.len() > 0 {
        Some(names[app_id]@)
    } else if recorded.len() > 0 {
        Some(recorded)
    } else {
        None
    }
}

/// The name to show for `app_id`.
pub fn app_label(names: &HashMap<u32, String>, app_id: u32, recorded: &str) -> (label: Option<String>)
    ensures
        (match label {
            Some(s) => Some(s@),
            None => None,
        }) == app_label_spec(names@, app_id, recorded@),
{
    match names.get(&app_id) {
        Some(name) => {
            if name.unicode_len() > 0 {
                return Some(name.clone());
            }
        },
        None => {},
    }
    if recorded.unicode_len() > 0 {
        Some(recorded.to_string())
    } else {
        None
    }
}

/// The rows shown after adding `count` to the `from` shown, out of `len`.
pub fn page_end(from: usize, count: usize, len: usize) -> (to: usize)
    requires
        from + count <= usize::MAX,
    ensures
        to == (if from + count < len { from + count } else { len as int }),
{
    let end = from + count;
    if end < len {
        end
    } else {
        len
    }
}

/// The changes of an expanded row left out of its list.
pub fn changes_hidden(len: usize) -> (hidden: usize)
    ensures
        hidden == (if len > MAX_CHANGES { len - MAX_CHANGES } else { 0 }),
{
    len.saturating_sub(MAX_CHANGES)
}

/// Whether `s` begins with `prefix`.
pub open spec fn starts_with(s: Seq<char>, prefix: Seq<char>) -> bool {
    prefix.len() <= s.len() && s.take(prefix.len() as int) == prefix
}

/// Whether `s` begins with the characters of `prefix`.
pub fn str_starts_with(s: &str, prefix: &str) -> (r: bool)
    ensures
        r == starts_with(s@, prefix@),
{
    let n = prefix.unicode_len();
    if n > s.unicode_len() {
        return false;
    }
    let mut i: usize = 0;
    while i < n
        invariant
            n == prefix@.len(),
            n <= s@.len(),
            i <= n,
            forall|k: int| 0 <= k < i ==> s@[k] == prefix@[k],
        decreases n - i,
    {
        if s.get_char(i) != prefix.get_char(i) {
            assert(s@.take(n as int)[i as int] != prefix@[i as int]);
            return false;
        }
        i = i + 1;
    }
    assert(s@.take(n as int) =~= prefix@);
    true
}

/// What a change to be put back touched, as refusals name it.
pub enum ChangeTarget {
    Achievement(String),
    Stat(String),
    Opaque,
}

/// The head a refusal puts on a line about a change: `ach:ID` or `stat:ID`.
pub open spec fn head_of(target: ChangeTarget) -> Seq<char> {
    match target {
        ChangeTarget::Achievement(id) => "ach:"@ + id@,
        ChangeTarget::Stat(id) => "stat:"@ + id@,
        ChangeTarget::Opaque => Seq::empty(),
    }
}

/// Whether a refusal line names the change: the head alone, or the head, a
/// space and a reason.
pub open spec fn names_change(line: Seq<char>, head: Seq<char>) -> bool {
    line == head || starts_with(line, head.push(' '))
}

/// A change is refused when a problem line names it; a change recorded only
/// as a description cannot be tied to any line and counts as refused.
pub open spec fn refused_spec(problems: Seq<String>, target: ChangeTarget) -> bool {
    target is Opaque || exists|i: int|
        0 <= i < problems.len() && names_change(problems[i]@, head_of(target))
}

/// Whether `line` is `kind` followed by `id`, alone or followed by a space.
fn line_names(line: &str, kind: &str, id: &str) -> (r: bool)
    ensures
        r == names_change(line@, kind@ + id@),
{
    let ghost head = kind@ + id@;
    let nk = kind.unicode_len();
    let ni = id.unicode_len();
    let n = line.unicode_len();
    if nk > n || ni > n - nk {
        proof {
            assert(head.len() > line@.len());
            assert(line@ != head);
        }
        return false;
    }
    let mut i: usize = 0;
    while i < nk + ni
        invariant
            nk == kind@.len(),
            ni == id@.len(),
            n == line@.len(),
            nk + ni <= n,
            head == kind@ + id@,
            i <= nk + ni,
            forall|k: int| 0 <= k < i ==> line@[k] == head[k],
        decreases nk + ni - i,
    {
        let c = if i < nk {
            kind.get_char(i)
        } else {
            id.get_char(i - nk)
        };
        assert(c == head[i as int]);
        if line.get_char(i) != c {
            proof {
                assert(line@[i as int] != head[i as int]);
                assert(line@ != head);
                if head.push(' ').len() <= line@.len() {
                    assert(line@.take(head.push(' ').len() as int)[i as int] != head.push(' ')[i as int]);
                }
            }
            return false;
        }
        i = i + 1;
    }
    if n == nk + ni {
        assert(line@ =~= head);
        return true;
    }
    let next = line.get_char(nk + ni);
    proof {
        assert(line@ != head);
        if next == ' ' {
            assert(line@.take(head.push(' ').len() as int) =~= head.push(' '));
        } else {
            assert(line@.take(head.push(' ').len() as int)[head.len() as int] != head.push(' ')[head.len() as int]);
        }
    }
    next == ' '
}

/// Whether Steam refused the change: the only thing tying a refusal to a
/// change is the `ach:ID` / `stat:ID` head on the line reporting it.
pub fn refused(problems: &Vec<String>, target: &ChangeTarget) -> (r: bool)
    ensures
        r == refused_spec(problems@, *target),
{
    let (kind, id) = match target {
        ChangeTarget::Achievement(id) => ("ach:", id),
        ChangeTarget::Stat(id) => ("stat:", id),
        ChangeTarget::Opaque => {
            return true;
        },
    };
    proof {
        reveal_strlit("ach:");
        reveal_strlit("stat:");
    }
    let mut i: usize = 0;
    while i < problems.len()
        invariant
            i <= problems@.len(),
            head_of(*target) == kind@ + id@,
            forall|k: int| 0 <= k < i ==> !names_change(problems@[k]@, head_of(*target)),
        decreases problems.len() - i,
    {
        if line_names(problems[i].as_str(), kind, id.as_str()) {
            return true;
        }
        i = i + 1;
    }
    false
}

/// What the import behind an undo reported for one game.
pub struct ImportSummary {
    pub achievements_applied: usize,
    pub stats_applied: usize,
    pub errors: Vec<String>,
    pub skipped_protected: Vec<String>,
    pub skipped_unwriteable: Vec<String>,
}

/// The characters of each line.
pub open spec fn lines_view(lines: Seq<String>) -> Seq<Seq<char>> {
    lines.map_values(|s: String| s@)
}

/// The outcome of an undo over the first `n` game replies: changes applied,
/// the problem lines, and whether some of it is unaccounted for (a failure
/// with no summary, or a failed store, which takes the whole game with it).
pub open spec fn undo_tally_upto(replies: Seq<(u32, Result<ImportSummary, String>)>, n: int) -> (
    int,
    Seq<Seq<char>>,
    bool,
)
    decreases n,
{
    if n <= 0 {
        (0, Seq::empty(), false)
    } else {
        let (applied, problems, unaccounted) = undo_tally_upto(replies, n - 1);
        match replies[n - 1].1 {
            Ok(summary) => (
                applied + summary.achievements_applied + summary.stats_applied,
                problems + lines_view(summary.errors@) + lines_view(summary.skipped_protected@)
                    + lines_view(summary.skipped_unwriteable@),
                unaccounted || exists|i: int|
                    0 <= i < summary.errors@.len() && starts_with(
                        summary.errors@[i]@,
                        "store failed"@,
                    ),
            ),
            Err(e) => (applied, problems.push(e@), true),
        }
    }
}

/// The outcome of an undo from the import's reply: no summary at all leaves
/// everything unaccounted for.
pub open spec fn undo_tally_spec(reply: Result<Vec<(u32, Result<ImportSummary, String>)>, String>) -> (
    int,
    Seq<Seq<char>>,
    bool,
) {
    match reply {
        Ok(replies) => {
            let t = undo_tally_upto(replies@, replies@.len() as int);
            (t.0, t.1, t.2 || replies@.len() == 0)
        },
        Err(e) => (0, seq![e@], true),
    }
}

/// Appends copies of `lines` to `out`.
fn append_lines(out: &mut Vec<String>, lines: &Vec<String>)
    ensures
        lines_view(final(out)@) == lines_view(old(out)@) + lines_view(lines@),
{
    let ghost start = lines_view(out@);
    let mut i: usize = 0;
    while i < lines.len()
        invariant
            i <= lines@.len(),
            lines_view(out@) == start + lines_view(lines@).take(i as int),
        decreases lines.len() - i,
    {
        let ghost before = out@;
        let line = lines[i].clone();
        out.push(line);
        proof {
            assert(lines_view(out@) =~= lines_view(before).push(lines@[i as int]@));
            assert(lines_view(lines@).take(i + 1) =~= lines_view(lines@).take(i as int).push(
                lines@[i as int]@,
            ));
        }
        i = i + 1;
    }
    assert(lines_view(lines@).take(lines@.len() as int) =~= lines_view(lines@));
}

/// Whether one of `errors` reports a failed store.
fn store_failed(errors: &Vec<String>) -> (r: bool)
    ensures
        r == exists|i: int| 0 <= i < errors@.len() && starts_with(errors@[i]@, "store failed"@),
{
    let mut i: usize = 0;
    while i < errors.len()
        invariant
            i <= errors@.len(),
            forall|k: int| 0 <= k < i ==> !starts_with(errors@[k]@, "store failed"@),
        decreases errors.len() - i,
    {
        if str_starts_with(errors[i].as_str(), "store failed") {
            return true;
        }
        i = i + 1;
    }
    false
}

/// Tallies the import's reply to an undo: changes applied, problem lines, and
/// whether some of it is unaccounted for.
pub fn tally_undo(reply: &Result<Vec<(u32, Result<ImportSummary, String>)>, String>) -> (tally: (
    usize,
    Vec<String>,
    bool,
))
    requires
        reply matches Ok(replies) ==> undo_tally_upto(replies@, replies@.len() as int).0 <= usize::MAX,
    ensures
        tally.0 == undo_tally_spec(*reply).0,
        lines_view(tally.1@) == undo_tally_spec(*reply).1,
        tally.2 == undo_tally_spec(*reply).2,
{
    let replies = match reply {
        Ok(replies) => replies,
        Err(e) => {
            let mut problems: Vec<String> = Vec::new();
            problems.push(e.clone());
            assert(lines_view(problems@) =~= seq![e@]);
            return (0, problems, true);
        },
    };
    let mut applied: usize = 0;
    let mut problems: Vec<String> = Vec::new();
    let mut unaccounted = false;
    let mut i: usize = 0;
    assert(lines_view(problems@) =~= Seq::<Seq<char>>::empty());
    while i < replies.len()
        invariant
            i <= replies@.len(),
            undo_tally_upto(replies@, replies@.len() as int).0 <= usize::MAX,
            applied == undo_tally_upto(replies@, i as int).0,
            lines_view(problems@) == undo_tally_upto(replies@, i as int).1,
            unaccounted == undo_tally_upto(replies@, i as int).2,
        decreases replies.len() - i,
    {
        proof {
            lemma_tally_grows(replies@, i + 1, replies@.len() as int);
        }
        match &replies[i].1 {
            Ok(summary) => {
                applied = applied + summary.achievements_applied + summary.stats_applied;
                if store_failed(&summary.errors) {
                    unaccounted = true;
                }
                append_lines(&mut problems, &summary.errors);
                append_lines(&mut problems, &summary.skipped_protected);
                append_lines(&mut problems, &summary.skipped_unwriteable);
            },
            Err(e) => {
                let ghost before = problems@;
                problems.push(e.clone());
                unaccounted = true;
                proof {
                    assert(lines_view(problems@) =~= lines_view(before).push(e@));
                }
            },
        }
        i = i + 1;
    }
    if replies.len() == 0 {
        unaccounted = true;
    }
    (applied, problems, unaccounted)
}

proof fn lemma_tally_grows(replies: Seq<(u32, Result<ImportSummary, String>)>, n: int, m: int)
    requires
        0 <= n <= m,
    ensures
        0 <= undo_tally_upto(replies, n).0 <= undo_tally_upto(replies, m).0,
    decreases m,
{
    if n < m {
        lemma_tally_grows(replies, n, m - 1);
    } else if n > 0 {
        lemma_tally_grows(replies, n - 1, n - 1);
    }
}

/// Every line a game's reply reports (its errors, the protected fields it
/// skipped, the stats it could not write) is among the tallied problems, and
/// so is the message of a game whose reply failed whole; with a failure, some
/// of the undo is unaccounted for.
pub proof fn lemma_every_reported_line_is_a_problem(
    replies: Seq<(u32, Result<ImportSummary, String>)>,
    k: int,
)
    requires
        0 <= k < replies.len(),
    ensures
        replies[k].1 matches Ok(summary) ==> {
            let problems = undo_tally_upto(replies, replies.len() as int).1;
            &&& forall|j: int|
                0 <= j < summary.errors@.len() ==> problems.contains(#[trigger] summary.errors@[j]@)
            &&& forall|j: int|
                0 <= j < summary.skipped_protected@.len() ==> problems.contains(
                    #[trigger] summary.skipped_protected@[j]@,
                )
            &&& forall|j: int|
                0 <= j < summary.skipped_unwriteable@.len() ==> problems.contains(
                    #[trigger] summary.skipped_unwriteable@[j]@,
                )
        },
        replies[k].1 matches Err(e) ==> undo_tally_upto(replies, replies.len() as int).1.contains(e@)
            && undo_tally_upto(replies, replies.len() as int).2,
{
    lemma_problems_kept(replies, k, replies.len() as int);
}

/// The problems tallied over the first `n` replies hold those of reply `k < n`.
proof fn lemma_problems_kept(replies: Seq<(u32, Result<ImportSummary, String>)>, k: int, n: int)
    requires
        0 <= k < n <= replies.len(),
    ensures
        replies[k].1 matches Ok(summary) ==> {
            let problems = undo_tally_upto(replies, n).1;
            &&& forall|j: int|
                0 <= j < summary.errors@.len() ==> problems.contains(#[trigger] summary.errors@[j]@)
            &&& forall|j: int|
                0 <= j < summary.skipped_protected@.len() ==> problems.contains(
                    #[trigger] summary.skipped_protected@[j]@,
                )
            &&& forall|j: int|
                0 <= j < summary.skipped_unwriteable@.len() ==> problems.contains(
                    #[trigger] summary.skipped_unwriteable@[j]@,
                )
        },
        replies[k].1 matches Err(e) ==> undo_tally_upto(replies, n).1.contains(e@)
            && undo_tally_upto(replies, n).2,
    decreases n,
{
    let before = undo_tally_upto(replies, n - 1);
    let now = undo_tally_upto(replies, n);
    if k < n - 1 {
        lemma_problems_kept(replies, k, n - 1);
        // What the earlier replies reported stays at the front.
        assert forall|x: Seq<char>| before.1.contains(x) implies now.1.contains(x) by {
            let i = choose|i: int| 0 <= i < before.1.len() && before.1[i] == x;
            match replies[n - 1].1 {
                Ok(summary) => {
                    let extra = lines_view(summary.errors@) + lines_view(summary.skipped_protected@)
                        + lines_view(summary.skipped_unwriteable@);
                    assert(now.1 =~= before.1 + extra);
                    assert(now.1[i] == x);
                },
                Err(e) => {
                    assert(now.1[i] == x);
                },
            }
        }
    } else {
        match replies[k].1 {
            Ok(summary) => {
                let a = lines_view(summary.errors@);
                let b = lines_view(summary.skipped_protected@);
                let c = lines_view(summary.skipped_unwriteable@);
                assert(now.1 =~= before.1 + a + b + c);
                let p = before.1.len();
                assert forall|j: int| 0 <= j < summary.errors@.len() implies now.1.contains(
                    #[trigger] summary.errors@[j]@,
                ) by {
                    assert(now.1[p + j] == summary.errors@[j]@);
                }
                assert forall|j: int| 0 <= j < summary.skipped_protected@.len() implies now.1.contains(
                    #[trigger] summary.skipped_protected@[j]@,
                ) by {
                    assert(now.1[p + a.len() + j] == summary.skipped_protected@[j]@);
                }
                assert forall|j: int|
                    0 <= j < summary.skipped_unwriteable@.len() implies now.1.contains(
                    #[trigger] summary.skipped_unwriteable@[j]@,
                ) by {
                    assert(now.1[p + a.len() + b.len() + j] == summary.skipped_unwriteable@[j]@);
                }
            },
            Err(e) => {
                assert(now.1[before.1.len() as int] == e@);
            },
        }
    }
}

/// Which of the inverse changes an undo files as put back: none when some of
/// it is unaccounted for, else those no problem line names.
pub fn put_back(targets: &Vec<ChangeTarget>, problems: &Vec<String>, unaccounted: bool) -> (keep: Vec<bool>)
    ensures
        keep@.len() == targets@.len(),
        forall|i: int|
            0 <= i < targets@.len() ==> #[trigger] keep@[i] == (!unaccounted && !refused_spec(
                problems@,
                targets@[i],
            )),
{
    let mut keep: Vec<bool> = Vec::new();
    let mut i: usize = 0;
    while i < targets.len()
        invariant
            i <= targets@.len(),
            keep@.len() == i,
            forall|k: int|
                0 <= k < i ==> #[trigger] keep@[k] == (!unaccounted && !refused_spec(
                    problems@,
                    targets@[k],
                )),
        decreases targets.len() - i,
    {
        let kept = !unaccounted && !refused(problems, &targets[i]);
        keep.push(kept);
        i = i + 1;
    }
    keep
}

/// The achievements a reset is about to lock, among the first `n`: those
/// unlocked that the game lets this tool write.
pub open spec fn wiped_upto(achievements: Seq<QueueCandidate>, n: int) -> Seq<usize>
    decreases n,
{
    if n <= 0 {
        Seq::empty()
    } else {
        let rest = wiped_upto(achievements, n - 1);
        let a = achievements[n - 1];
        if a.achieved && a.permission == 0 {
            rest.push((n - 1) as usize)
        } else {
            rest
        }
    }
}

/// The positions of the achievements a reset locks, to record so it can be
/// undone: only what actually moves.
pub fn wiped_by_reset(achievements: &Vec<QueueCandidate>) -> (wiped: Vec<usize>)
    ensures
        wiped@ == wiped_upto(achievements@, achievements@.len() as int),
{
    let mut wiped: Vec<usize> = Vec::new();
    let mut i: usize = 0;
    while i < achievements.len()
        invariant
            i <= achievements@.len(),
            wiped@ == wiped_upto(achievements@, i as int),
        decreases achievements.len() - i,
    {
        if achievements[i].achieved && achievements[i].permission == 0 {
            wiped.push(i);
        }
        i = i + 1;
    }
    wiped
}

} // verus!
