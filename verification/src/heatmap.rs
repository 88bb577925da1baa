//! A year of unlock activity as one square per day, in calendar-week columns:
//! where each day sits, how dark its square is, and what the readout says.
use vstd::prelude::*;
use std::collections::{HashMap, HashSet};
use crate::calendar::{civil_arithmetic_fits, civil_from_days, civil_of, days_from_civil, days_from_civil_spec, unix_epoch_offset, weekday};

verus! {

broadcast use vstd::std_specs::hash::group_hash_axioms;

/// Columns in the grid; 53 weeks is the fewest that always covers a full year.
pub const WEEKS: i32 = 53;

/// Pixels between two squares.
pub const GAP: i32 = 3;

/// The smallest and largest square, in pixels.
pub const MIN_CELL: i32 = 7;

pub const MAX_CELL: i32 = 14;

/// Rust's `/` on integers: rounds toward zero.
pub open spec fn trunc_div(a: int, b: int) -> int {
    if a >= 0 {
        a / b
    } else {
        -((-a) / b)
    }
}

/// Rust's `%` on integers: takes the sign of `a`.
pub open spec fn trunc_rem(a: int, b: int) -> int {
    a - b * trunc_div(a, b)
}

/// The smallest end day the grid can be drawn for without leaving `i32`.
pub open spec fn min_end_day() -> int {
    i32::MIN + (WEEKS - 1) * 7 + 6
}

/// The first day of the grid ending on `end_day`: the Monday 52 weeks before
/// the week of `end_day`.
pub open spec fn grid_start_spec(end_day: int) -> int {
    end_day - (WEEKS - 1) * 7 - (end_day + 3) % 7
}

/// The first day of the grid ending on `end_day`.
pub fn grid_start(end_day: i32) -> (start: i32)
    requires
        end_day >= min_end_day(),
    ensures
        start == grid_start_spec(end_day as int),
{
    end_day - (WEEKS - 1) * 7 - weekday(end_day)
}

/// The grid starts on a Monday and reaches `end_day` in its last column.
pub proof fn lemma_grid_covers_end_day(end_day: int)
    ensures
        (grid_start_spec(end_day) + 3) % 7 == 0,
        grid_start_spec(end_day) + (WEEKS - 1) * 7 <= end_day < grid_start_spec(end_day) + WEEKS
            * 7,
{
}

/// `a % b` as Rust computes it on integers, for a positive `b`.
fn rem_toward_zero(a: i32, b: i32) -> (r: i64)
    requires
        b > 0,
    ensures
        r == trunc_rem(a as int, b as int),
{
    let wide: i64 = a as i64;
    let d: i64 = b as i64;
    if wide >= 0 {
        let m: i64 = wide % d;
        proof {
            assert(wide == d * (wide / d) + m) by (nonlinear_arith)
                requires
                    d > 0,
                    wide >= 0,
                    m == wide % d,
            ;
        }
        m
    } else {
        let pos: i64 = -wide;
        let m: i64 = pos % d;
        let q: i64 = pos / d;
        proof {
            assert(pos == d * q + m) by (nonlinear_arith)
                requires
                    d > 0,
                    pos >= 0,
                    m == pos % d,
                    q == pos / d,
            ;
            assert(trunc_div(a as int, b as int) == -q);
            assert(d * (-q) == -(d * q)) by (nonlinear_arith);
        }
        -m
    }
}

/// The side of a square for a grid `width` pixels wide.
pub open spec fn cell_size_spec(width: int) -> int {
    let fit = trunc_div(width + GAP, WEEKS as int) - GAP;
    if fit < MIN_CELL {
        MIN_CELL as int
    } else if fit > MAX_CELL {
        MAX_CELL as int
    } else {
        fit
    }
}

/// The side of a square for a grid `width` pixels wide: as large as fits,
/// between the smallest and largest size.
pub fn cell_size(width: i32) -> (cell: i32)
    requires
        width <= i32::MAX - GAP,
    ensures
        cell == cell_size_spec(width as int),
        MIN_CELL <= cell <= MAX_CELL,
{
    let fit = (width + GAP) / WEEKS - GAP;
    if fit < MIN_CELL {
        MIN_CELL
    } else if fit > MAX_CELL {
        MAX_CELL
    } else {
        fit
    }
}

/// The grid's size requests: across, from the smallest squares to the
/// largest; down, for `for_width` pixels across (the largest squares when no
/// width is given), two label rows and seven rows of squares, `label` being
/// a label row's height. Returns `(minimum, natural)`.
pub open spec fn measure_spec(horizontal: bool, for_width: int, label: int) -> (int, int) {
    if horizontal {
        (WEEKS * (MIN_CELL + GAP) - GAP, WEEKS * (MAX_CELL + GAP) - GAP)
    } else {
        let cell = if for_width < 0 {
            MAX_CELL as int
        } else {
            cell_size_spec(for_width)
        };
        let height = label * 2 + 7 * (cell + GAP) - GAP;
        (height, height)
    }
}

/// The grid's size request.
pub fn measure(horizontal: bool, for_width: i32, label: i32) -> (size: (i32, i32))
    requires
        for_width <= i32::MAX - GAP,
        i32::MIN <= label * 2,
        label * 2 + 7 * (MAX_CELL + GAP) <= i32::MAX,
    ensures
        size.0 == measure_spec(horizontal, for_width as int, label as int).0,
        size.1 == measure_spec(horizontal, for_width as int, label as int).1,
{
    if horizontal {
        return (WEEKS * (MIN_CELL + GAP) - GAP, WEEKS * (MAX_CELL + GAP) - GAP);
    }
    let cell = if for_width < 0 {
        MAX_CELL
    } else {
        cell_size(for_width)
    };
    let height = label * 2 + 7 * (cell + GAP) - GAP;
    (height, height)
}

/// How dark a day's square is: none for no unlocks, then one shade per floor
/// of 1, 3, 6 and 11 unlocks reached, less one.
pub open spec fn level_spec(count: u32) -> Option<usize> {
    if count == 0 {
        None
    } else if count >= 11 {
        Some(3)
    } else if count >= 6 {
        Some(2)
    } else if count >= 3 {
        Some(1)
    } else {
        Some(0)
    }
}

/// The shade of a day with `count` unlocks.
pub fn level(count: u32) -> (shade: Option<usize>)
    ensures
        shade == level_spec(count),
{
    let floors: [u32; 4] = [1, 3, 6, 11];
    if count == 0 {
        return None;
    }
    let mut reached: usize = 0;
    let mut i: usize = 0;
    while i < 4
        invariant
            i <= 4,
            floors@ == seq![1u32, 3u32, 6u32, 11u32],
            count > 0,
            reached == (if i >= 1 && count >= 1 { 1int } else { 0 }) + (if i >= 2 && count >= 3 {
                1int
            } else {
                0
            }) + (if i >= 3 && count >= 6 { 1int } else { 0 }) + (if i >= 4 && count >= 11 {
                1int
            } else {
                0
            }),
        decreases 4 - i,
    {
        if count >= floors[i] {
            reached = reached + 1;
        }
        i = i + 1;
    }
    Some(reached - 1)
}

/// A busier day never reads lighter.
pub proof fn lemma_level_monotone(a: u32, b: u32)
    requires
        0 < a <= b,
    ensures
        level_spec(a)->0 <= level_spec(b)->0,
        level_spec(b) is Some,
{
}

/// The day under the square in `column`, `row` of the grid ending on `end_day`.
pub fn day_at(end_day: i32, column: i32, row: i32) -> (day: i32)
    requires
        min_end_day() <= end_day <= i32::MAX - 6,
        0 <= column < WEEKS,
        0 <= row < 7,
    ensures
        day == grid_start_spec(end_day as int) + column * 7 + row,
{
    grid_start(end_day) + column * 7 + row
}

/// The square under the pointer at `x`, `y` (pixels, truncated toward zero)
/// in a grid `width` pixels wide whose squares start `top` pixels down:
/// none between squares, outside the grid, past `end_day`, or when the grid
/// has nothing drawn.
pub open spec fn cell_at_spec(has_days: bool, width: int, top: int, end_day: int, x: int, y: int) -> Option<
    (i32, i32),
> {
    let cell = cell_size_spec(width);
    let step = cell + GAP;
    let column = trunc_div(x, step);
    let row = trunc_div(y - top, step);
    if !has_days || y < top || !(0 <= column < WEEKS) || !(0 <= row < 7) || trunc_rem(x, step)
        >= cell || trunc_rem(y - top, step) >= cell {
        None
    } else if grid_start_spec(end_day) + column * 7 + row <= end_day {
        Some((column as i32, row as i32))
    } else {
        None
    }
}

/// The square under the pointer, if any.
pub fn cell_at(has_days: bool, width: i32, top: i32, end_day: i32, x: i32, y: i32) -> (cell: Option<
    (i32, i32),
>)
    requires
        width <= i32::MAX - GAP,
        min_end_day() <= end_day <= i32::MAX - 6,
        i32::MIN <= y - top <= i32::MAX,
    ensures
        cell == cell_at_spec(has_days, width as int, top as int, end_day as int, x as int, y as int),
{
    if !has_days {
        return None;
    }
    let cell = cell_size(width);
    let step = cell + GAP;
    let column = x / step;
    let dy = y - top;
    let row = dy / step;
    let rx = rem_toward_zero(x, step);
    let ry = rem_toward_zero(dy, step);
    assert(column == trunc_div(x as int, step as int));
    assert(row == trunc_div(dy as int, step as int));
    if y < top || !(0 <= column && column < WEEKS) || !(0 <= row && row < 7) || rx >= cell as i64
        || ry >= cell as i64 {
        return None;
    }
    if day_at(end_day, column, row) <= end_day {
        Some((column, row))
    } else {
        None
    }
}

/// The one game of a day with a single game.
fn sole_member(ids: &HashSet<u32>) -> (r: Option<u32>)
    ensures
        ids@.len() == 1 ==> r == Some(ids@.choose()),
{
    broadcast use vstd::std_specs::hash::axiom_spec_hash_keys_iter;

    let mut first: Option<u32> = None;
    for x in iter: ids.iter()
        invariant
            first == (if iter.index() == 0 {
                None
            } else {
                Some(*iter.seq()[0])
            }),
    {
        if first.is_none() {
            first = Some(*x);
        }
    }
    proof {
        if ids@.len() == 1 {
            let x = ids@.choose();
            assert(ids@.contains(x));
        }
    }
    first
}

/// What the readout says of one day: its unlocks, how many games they were
/// in, and the game's name when there was exactly one that the library knows.
pub struct DaySummary {
    pub count: u32,
    pub games: usize,
    pub only: Option<String>,
}

impl View for DaySummary {
    type V = (u32, usize, Option<Seq<char>>);

    open spec fn view(&self) -> (u32, usize, Option<Seq<char>>) {
        (
            self.count,
            self.games,
            match self.only {
                Some(name) => Some(name@),
                None => None,
            },
        )
    }
}

/// A day with no unlocks.
pub open spec fn empty_summary() -> (u32, usize, Option<Seq<char>>) {
    (0, 0, None)
}

/// The games with an unlock on `day`.
pub open spec fn games_of(apps_per_day: Map<i32, HashSet<u32>>, day: i32) -> Set<u32> {
    if apps_per_day.contains_key(day) {
        apps_per_day[day]@
    } else {
        Set::empty()
    }
}

/// The summary of `day` from the unlocks per day, the games per day and the
/// library's names.
pub open spec fn summary_of(
    per_day: Map<i32, u32>,
    apps_per_day: Map<i32, HashSet<u32>>,
    names: Map<u32, String>,
    day: i32,
) -> (u32, usize, Option<Seq<char>>) {
    if per_day.contains_key(day) {
        let games = games_of(apps_per_day, day);
        (
            per_day[day],
            games.len() as usize,
            if games.len() == 1 && names.contains_key(games.choose()) {
                Some(names[games.choose()]@)
            } else {
                None
            },
        )
    } else {
        empty_summary()
    }
}

/// The summary of one day.
pub fn day_summary(
    per_day: &HashMap<i32, u32>,
    apps_per_day: &HashMap<i32, HashSet<u32>>,
    names: &HashMap<u32, String>,
    day: i32,
) -> (summary: DaySummary)
    ensures
        summary@ == summary_of(per_day@, apps_per_day@, names@, day),
{
    let count = match per_day.get(&day) {
        Some(c) => *c,
        None => {
            return DaySummary { count: 0, games: 0, only: None };
        },
    };
    let (games, only) = match apps_per_day.get(&day) {
        Some(ids) => {
            let games = ids.len();
            let only = if games == 1 {
                match sole_member(ids) {
                    Some(id) => match names.get(&id) {
                        Some(name) => Some(name.clone()),
                        None => None,
                    },
                    None => None,
                }
            } else {
                None
            };
            (games, only)
        },
        None => (0, None),
    };
    DaySummary { count, games, only }
}

/// The greatest end day the grid can be drawn for.
pub open spec fn max_end_day() -> int {
    i32::MAX - unix_epoch_offset() - WEEKS * 7
}

/// The squares of the grid ending on `end_day`, column by column: days after
/// `end_day` are left empty.
pub fn grid_days(
    per_day: &HashMap<i32, u32>,
    apps_per_day: &HashMap<i32, HashSet<u32>>,
    names: &HashMap<u32, String>,
    end_day: i32,
) -> (cells: Vec<DaySummary>)
    requires
        min_end_day() <= end_day <= max_end_day(),
    ensures
        cells@.len() == WEEKS * 7,
        forall|i: int|
            0 <= i < WEEKS * 7 ==> #[trigger] cells@[i]@ == (if grid_start_spec(end_day as int) + i
                > end_day {
                empty_summary()
            } else {
                summary_of(
                    per_day@,
                    apps_per_day@,
                    names@,
                    (grid_start_spec(end_day as int) + i) as i32,
                )
            }),
{
    let start = grid_start(end_day);
    let mut cells: Vec<DaySummary> = Vec::new();
    let mut i: i32 = 0;
    while i < WEEKS * 7
        invariant
            0 <= i <= WEEKS * 7,
            start == grid_start_spec(end_day as int),
            min_end_day() <= end_day <= max_end_day(),
            cells@.len() == i,
            forall|k: int|
                0 <= k < i ==> #[trigger] cells@[k]@ == (if start + k > end_day {
                    empty_summary()
                } else {
                    summary_of(per_day@, apps_per_day@, names@, (start + k) as i32)
                }),
        decreases WEEKS * 7 - i,
    {
        let day = start + i;
        if day > end_day {
            cells.push(DaySummary { count: 0, games: 0, only: None });
        } else {
            cells.push(day_summary(per_day, apps_per_day, names, day));
        }
        i = i + 1;
    }
    cells
}

/// The month names along the top of the grid starting on `start`, for its
/// first `n` columns: a column is labelled when its Monday falls in the first
/// week of a month and the last label is at least three columns back.
pub open spec fn month_labels_upto(start: int, n: int) -> Seq<(i32, u32)>
    decreases n,
{
    if n <= 0 {
        Seq::empty()
    } else {
        let before = month_labels_upto(start, n - 1);
        let column = n - 1;
        let last = if before.len() == 0 {
            -3
        } else {
            before.last().0 as int
        };
        let date = civil_of(start + column * 7);
        if date.2 <= 7 && column - last >= 3 {
            before.push((column as i32, date.1 as u32))
        } else {
            before
        }
    }
}

/// Month labels never crowd: each stands at least three columns after the
/// one before, and all within the grid.
pub proof fn lemma_month_labels_spaced(start: int, n: int)
    requires
        0 <= n <= WEEKS,
    ensures
        forall|i: int|
            0 <= i < month_labels_upto(start, n).len() ==> 0 <= #[trigger] month_labels_upto(
                start,
                n,
            )[i].0 < n,
        forall|i: int, j: int|
            0 <= i < j < month_labels_upto(start, n).len() ==> #[trigger] month_labels_upto(start, n)[j].0
                - #[trigger] month_labels_upto(start, n)[i].0 >= 3,
    decreases n,
{
    if n > 0 {
        lemma_month_labels_spaced(start, n - 1);
        let before = month_labels_upto(start, n - 1);
        let now = month_labels_upto(start, n);
        if now.len() > before.len() {
            assert(now == before.push(((n - 1) as i32, civil_of(start + (n - 1) * 7).1 as u32)));
            assert forall|i: int, j: int| 0 <= i < j < now.len() implies #[trigger] now[j].0
                - #[trigger] now[i].0 >= 3 by {
                if j == now.len() - 1 && i < before.len() - 1 {
                    assert(before[before.len() - 1].0 - before[i].0 >= 3);
                }
            }
        }
    }
}

/// The month labels of the grid ending on `end_day`: `(column, month)` pairs,
/// months counted from 1.
pub fn month_labels(end_day: i32) -> (labels: Vec<(i32, u32)>)
    requires
        min_end_day() <= end_day <= max_end_day(),
    ensures
        labels@ == month_labels_upto(grid_start_spec(end_day as int), WEEKS as int),
{
    let start = grid_start(end_day);
    let mut labels: Vec<(i32, u32)> = Vec::new();
    let mut last: i32 = -3;
    let mut column: i32 = 0;
    while column < WEEKS
        invariant
            0 <= column <= WEEKS,
            start == grid_start_spec(end_day as int),
            min_end_day() <= end_day <= max_end_day(),
            labels@ == month_labels_upto(start as int, column as int),
            last == (if labels@.len() == 0 {
                -3
            } else {
                labels@.last().0 as int
            }),
            -3 <= last < column,
        decreases WEEKS - column,
    {
        let (_, month, day_of_month) = civil_from_days(start + column * 7);
        if day_of_month <= 7 && column - last >= 3 {
            labels.push((column, month));
            last = column;
        }
        column = column + 1;
    }
    labels
}

/// How the readout under the grid reads a day.
#[derive(Clone, Copy, Debug, PartialEq, Eq)]
pub enum Readout {
    /// No unlocks on that day.
    Nothing,
    /// Unlocks in the one game named.
    InGame,
    /// Unlocks across several games.
    AcrossGames,
    /// Unlocks, with no game to name.
    Plain,
}

/// The readout of a day summary.
pub open spec fn readout_of(summary: (u32, usize, Option<Seq<char>>)) -> Readout {
    if summary.0 == 0 {
        Readout::Nothing
    } else if summary.1 == 1 && summary.2 is Some {
        Readout::InGame
    } else if summary.1 > 1 {
        Readout::AcrossGames
    } else {
        Readout::Plain
    }
}

/// How the readout reads `summary`.
pub fn readout(summary: &DaySummary) -> (r: Readout)
    ensures
        r == readout_of(summary@),
{
    if summary.count == 0 {
        Readout::Nothing
    } else if summary.games == 1 && summary.only.is_some() {
        Readout::InGame
    } else if summary.games > 1 {
        Readout::AcrossGames
    } else {
        Readout::Plain
    }
}

/// The year shown, as the days it spans on the grid: the current year ends
/// today rather than on 31 December, so the grid never trails empty weeks, and
/// its count reaches back as far as the grid does; another year is counted
/// from 1 January. Returns `(from, end_day)`.
pub open spec fn year_window(year: int, today: int) -> (int, int) {
    if year == civil_of(today).0 {
        (grid_start_spec(today), today)
    } else {
        (days_from_civil_spec(year, 1, 1), days_from_civil_spec(year, 12, 31))
    }
}

/// The days the year `year` is drawn and counted over, given `today`.
pub fn year_window_of(year: i32, today: i32) -> (window: (i32, i32))
    requires
        min_end_day() <= today <= max_end_day(),
        year != civil_of(today as int).0 ==> civil_arithmetic_fits(year as int, 1, 1)
            && civil_arithmetic_fits(year as int, 12, 31),
    ensures
        window.0 == year_window(year as int, today as int).0,
        window.1 == year_window(year as int, today as int).1,
{
    let (this_year, _, _) = civil_from_days(today);
    if year == this_year {
        (grid_start(today), today)
    } else {
        (days_from_civil(year, 1, 1), days_from_civil(year, 12, 31))
    }
}

/// The unlocks on the days `from..from + n`.
pub open spec fn unlocks_over(per_day: Map<i32, u32>, from: int, n: int) -> int
    decreases n,
{
    if n <= 0 {
        0
    } else {
        unlocks_over(per_day, from, n - 1) + (if per_day.contains_key((from + n - 1) as i32) {
            per_day[(from + n - 1) as i32] as int
        } else {
            0
        })
    }
}

/// The unlocks from `from` to `end_day`, both included.
pub fn unlocks_between(per_day: &HashMap<i32, u32>, from: i32, end_day: i32) -> (count: u32)
    requires
        end_day < i32::MAX,
        from <= end_day + 1,
        unlocks_over(per_day@, from as int, end_day - from + 1) <= u32::MAX,
    ensures
        count == unlocks_over(per_day@, from as int, end_day - from + 1),
{
    let mut count: u32 = 0;
    let mut day: i32 = from;
    while day <= end_day
        invariant
            from <= day <= end_day + 1,
            end_day < i32::MAX,
            unlocks_over(per_day@, from as int, end_day - from + 1) <= u32::MAX,
            count == unlocks_over(per_day@, from as int, day - from),
        decreases end_day + 1 - day,
    {
        proof {
            lemma_unlocks_over_grows(per_day@, from as int, day - from + 1, end_day - from + 1);
        }
        match per_day.get(&day) {
            Some(c) => {
                count = count + *c;
            },
            None => {},
        }
        day = day + 1;
    }
    count
}

proof fn lemma_unlocks_over_grows(per_day: Map<i32, u32>, from: int, n: int, m: int)
    requires
        n <= m,
    ensures
        unlocks_over(per_day, from, n) <= unlocks_over(per_day, from, m),
    decreases m - n,
{
    if n < m {
        lemma_unlocks_over_grows(per_day, from, n, m - 1);
    }
}

/// What the caption under the grid says.
#[derive(Clone, Copy, Debug, PartialEq, Eq)]
pub enum HeatmapCaption {
    /// "No unlocks yet."
    NoUnlocks,
    /// Every unlock is on the grid: "{total} unlocked since {since}."
    AllSince,
    /// The current year: "{year} in the last year, {total} since {since}."
    LastYear,
    /// Another year: "{count} in {year}, {total} since {since}."
    InYear,
}

/// The caption for a year whose grid shows `drawn` of `total` unlocks.
pub open spec fn caption_of(drawn: u32, total: usize, ends_today: bool, has_since: bool) -> HeatmapCaption {
    if !has_since {
        HeatmapCaption::NoUnlocks
    } else if drawn as int == total as int {
        HeatmapCaption::AllSince
    } else if ends_today {
        HeatmapCaption::LastYear
    } else {
        HeatmapCaption::InYear
    }
}

/// Which caption goes under the grid.
pub fn heatmap_caption(drawn: u32, total: usize, ends_today: bool, has_since: bool) -> (caption: HeatmapCaption)
    ensures
        caption == caption_of(drawn, total, ends_today, has_since),
{
    if !has_since {
        HeatmapCaption::NoUnlocks
    } else if drawn as usize == total {
        HeatmapCaption::AllSince
    } else if ends_today {
        HeatmapCaption::LastYear
    } else {
        HeatmapCaption::InYear
    }
}

/// The earliest day with an unlock.
pub fn earliest_day(per_day: &HashMap<i32, u32>) -> (first: Option<i32>)
    ensures
        first is None <==> per_day@.dom().is_empty(),
        first matches Some(d) ==> per_day@.contains_key(d) && forall|k: i32|
            #[trigger] per_day@.contains_key(k) ==> d <= k,
{
    broadcast use vstd::std_specs::hash::axiom_spec_keys_iter;

    let mut first: Option<i32> = None;
    let ghost mut seen: Seq<i32> = Seq::empty();
    for day in iter: per_day.keys()
        invariant
            iter.seq().unref().to_set() == per_day@.dom(),
            seen == iter.seq().take(iter.index()).unref(),
            iter.index() == iter.seq().len() ==> seen.to_set() == per_day@.dom(),
            first is None <==> seen.len() == 0,
            first matches Some(d) ==> seen.contains(d) && forall|j: int|
                0 <= j < seen.len() ==> d <= #[trigger] seen[j],
    {
        first = match first {
            Some(d) => if *day < d { Some(*day) } else { Some(d) },
            None => Some(*day),
        };
        proof {
            let ghost before = seen;
            seen = seen.push(*day);
            assert(seen[seen.len() - 1] == *day);
            if first is Some {
                let d = first->0;
                if d != *day {
                    let j = choose|j: int| 0 <= j < before.len() && before[j] == d;
                    assert(seen[j] == d);
                }
            }
        }
        assert(seen =~= iter.seq().take(iter.index() + 1).unref());
        assert(iter.index() + 1 == iter.seq().len() ==> iter.seq().take(iter.index() + 1) =~= iter.seq());
    }
    proof {
        assert(seen.to_set() =~= per_day@.dom());
        assert forall|k: i32| #[trigger] per_day@.contains_key(k) implies first is Some && first->0 <= k by {
            assert(seen.to_set().contains(k));
            let j = choose|j: int| 0 <= j < seen.len() && seen[j] == k;
        }
        if first is Some {
            assert(seen.to_set().contains(first->0));
        }
    }
    first
}

/// The years the year picker offers, newest first: from the year of the
/// earliest unlock (this year when there is none) to this year.
pub open spec fn year_choices_spec(earliest_year: int, this_year: int) -> Seq<i32> {
    Seq::new(
        if earliest_year <= this_year { (this_year - earliest_year + 1) as nat } else { 0 },
        |i: int| (this_year - i) as i32,
    )
}

/// The years to offer, newest first.
pub fn year_choices(earliest: Option<i32>, today: i32) -> (years: Vec<i32>)
    requires
        min_end_day() <= today <= max_end_day(),
        earliest matches Some(d) ==> d <= i32::MAX - unix_epoch_offset(),
    ensures
        years@ == year_choices_spec(
            match earliest {
                Some(d) => civil_of(d as int).0,
                None => civil_of(today as int).0,
            },
            civil_of(today as int).0,
        ),
{
    let (this_year, _, _) = civil_from_days(today);
    let first_year = match earliest {
        Some(d) => civil_from_days(d).0,
        None => this_year,
    };
    let ghost expected = year_choices_spec(first_year as int, this_year as int);
    let mut years: Vec<i32> = Vec::new();
    if first_year > this_year {
        assert(years@ =~= expected);
        return years;
    }
    let n: i64 = this_year as i64 - first_year as i64 + 1;
    let mut k: i64 = 0;
    while k < n
        invariant
            n == this_year - first_year + 1,
            0 <= k <= n,
            years@ == expected.take(k as int),
            expected == year_choices_spec(first_year as int, this_year as int),
        decreases n - k,
    {
        let year: i32 = (this_year as i64 - k) as i32;
        proof {
            assert(expected.take(k + 1) =~= expected.take(k as int).push(year));
        }
        years.push(year);
        k = k + 1;
    }
    assert(years@ =~= expected);
    years
}

/// The first place `y` appears in `years`.
pub open spec fn first_index_of(years: Seq<i32>, y: i32) -> int
    decreases years.len(),
{
    if years.len() == 0 || years[0] == y {
        0
    } else {
        1 + first_index_of(years.drop_first(), y)
    }
}

proof fn lemma_first_index_of(years: Seq<i32>, y: i32, i: int)
    requires
        0 <= i < years.len(),
        years[i] == y,
        forall|j: int| 0 <= j < i ==> years[j] != y,
    ensures
        first_index_of(years, y) == i,
    decreases i,
{
    if i > 0 {
        lemma_first_index_of(years.drop_first(), y, i - 1);
    }
}

/// Where the year `was` sits among `years`, so a reload leaves the same year
/// selected; the newest when it is gone.
pub open spec fn reselect_spec(years: Seq<i32>, was: Option<i32>) -> int {
    match was {
        Some(y) => if years.contains(y) {
            first_index_of(years, y)
        } else {
            0
        },
        None => 0,
    }
}

/// The row to select in the year picker.
pub fn reselect(years: &Vec<i32>, was: Option<i32>) -> (selected: u32)
    requires
        years@.len() <= u32::MAX,
    ensures
        selected == reselect_spec(years@, was),
{
    let y = match was {
        Some(y) => y,
        None => {
            return 0;
        },
    };
    let mut i: usize = 0;
    while i < years.len()
        invariant
            i <= years@.len(),
            years@.len() <= u32::MAX,
            was == Some(y),
            forall|j: int| 0 <= j < i ==> years@[j] != y,
        decreases years.len() - i,
    {
        if years[i] == y {
            proof {
                lemma_first_index_of(years@, y, i as int);
            }
            return i as u32;
        }
        i = i + 1;
    }
    proof {
        if years@.contains(y) {
            let k = choose|k: int| 0 <= k < years@.len() && years@[k] == y;
            assert(years@[k] != y);
        }
    }
    0
}

} // verus!
