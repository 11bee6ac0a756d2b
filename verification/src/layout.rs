//! The layout of the screen.
use ratatui::layout::{Constraint, Direction, Layout, Rect};
use vstd::prelude::*;

verus! {

/// A rectangle of the screen, in cells.
#[derive(Clone, Copy, Debug, PartialEq, Eq, Structural)]
pub struct Area {
    pub x: u16,
    pub y: u16,
    pub width: u16,
    pub height: u16,
}

impl Area {
    /// The far edges are coordinates too.
    pub open spec fn wf(self) -> bool {
        &&& self.x + self.width <= u16::MAX
        &&& self.y + self.height <= u16::MAX
    }

    /// The rectangle at `x`, `y`, cut at the largest coordinate.
    pub fn new(x: u16, y: u16, width: u16, height: u16) -> (r: Area)
        ensures
            r.wf(),
            r.x == x,
            r.y == y,
            r.width == (if x + width <= u16::MAX {
                width as int
            } else {
                u16::MAX - x
            }),
            r.height == (if y + height <= u16::MAX {
                height as int
            } else {
                u16::MAX - y
            }),
    {
        let max_width: u16 = u16::MAX - x;
        let max_height: u16 = u16::MAX - y;
        Area {
            x,
            y,
            width: if width > max_width {
                max_width
            } else {
                width
            },
            height: if height > max_height {
                max_height
            } else {
                height
            },
        }
    }
}

/// How to cut an area in two.
#[derive(Clone, Copy, Debug)]
pub enum Cut {
    /// Rows: the lower one has the height `lower`, as long as the upper one keeps
    /// its least height; the upper one has the rest.
    Rows { upper_min: u16, lower: u16 },
    /// Columns: the left one has `percent` of the width, as long as the right one
    /// keeps its least width; the right one has the rest.
    Columns { percent: u16, right_min: u16 },
}

impl Cut {
    /// A percentage is at most a hundred, and a least size fits a signed integer.
    pub open spec fn wf(self) -> bool {
        match self {
            Cut::Rows { upper_min, lower } => upper_min <= i16::MAX,
            Cut::Columns { percent, right_min } => percent <= 100 && right_min <= i16::MAX,
        }
    }
}

/// The lesser of two integers.
pub open spec fn least(a: int, b: int) -> int {
    if a <= b {
        a
    } else {
        b
    }
}

/// The size of the first part, out of `total`.
pub open spec fn first_size(cut: Cut, total: int) -> int {
    match cut {
        Cut::Rows { upper_min, lower } => total - least(
            lower as int,
            total - least(upper_min as int, total),
        ),
        Cut::Columns { percent, right_min } => least(
            (percent * total + 50) / 100,
            total - least(right_min as int, total),
        ),
    }
}

/// The two parts of `area`: they fill it, one below the other or side by side.
pub open spec fn parts_of(cut: Cut, area: Area) -> (Area, Area) {
    match cut {
        Cut::Rows { .. } => {
            let n = first_size(cut, area.height as int);
            (
                Area { height: n as u16, ..area },
                Area { y: (area.y + n) as u16, height: (area.height - n) as u16, ..area },
            )
        },
        Cut::Columns { .. } => {
            let n = first_size(cut, area.width as int);
            (
                Area { width: n as u16, ..area },
                Area { x: (area.x + n) as u16, width: (area.width - n) as u16, ..area },
            )
        },
    }
}

/// `ratatui::layout::Layout::split` for two parts: rows under `Min` and `Length`,
/// or columns under `Percentage` and `Min`. The parts fill the area. `Min` is met
/// first, as far as the area goes. A `Length` is kept as far as that leaves room; a
/// `Percentage` is rounded to the nearest cell, a half up, and kept as far as that
/// leaves room. The part under `Min` grows to take what is left.
#[verifier::external_body]
fn split(cut: Cut, area: Area) -> (r: (Area, Area))
    requires
        cut.wf(),
        area.wf(),
    ensures
        r == parts_of(cut, area),
{
    let (direction, first, second) = match cut {
        Cut::Rows { upper_min, lower } =>
            (Direction::Vertical, Constraint::Min(upper_min), Constraint::Length(lower)),
        Cut::Columns { percent, right_min } =>
            (Direction::Horizontal, Constraint::Percentage(percent), Constraint::Min(right_min)),
    };
    let whole = Rect { x: area.x, y: area.y, width: area.width, height: area.height };
    let parts = Layout::new(direction, [first, second]).split(whole);
    let (a, b) = (parts[0], parts[1]);
    (
        Area { x: a.x, y: a.y, width: a.width, height: a.height },
        Area { x: b.x, y: b.y, width: b.width, height: b.height },
    )
}

/// The least height of the part of the screen above the help line.
pub const BODY_MIN: u16 = 0;

/// The height of the help line.
pub const HELP_HEIGHT: u16 = 1;

/// The part of the width that the commit list has, in percent.
pub const LIST_PERCENT: u16 = 40;

/// The least width of the commit message.
pub const MESSAGE_MIN: u16 = 28;

/// The body of the screen and the help line below it.
pub open spec fn body_and_help(area: Area) -> (Area, Area) {
    parts_of(Cut::Rows { upper_min: BODY_MIN, lower: HELP_HEIGHT }, area)
}

/// The commit list and the commit message beside it.
pub open spec fn list_and_message(body: Area) -> (Area, Area) {
    parts_of(Cut::Columns { percent: LIST_PERCENT, right_min: MESSAGE_MIN }, body)
}

/// Inner lines visible inside a block with borders for height `h`.
pub fn bordered_inner_lines(h: u16) -> (n: usize)
    ensures
        n == (if h >= 2 {
            h - 2
        } else {
            0
        }),
{
    h.saturating_sub(2) as usize
}

/// The body of the screen, and the help line below it.
pub fn split_help_line(area: Area) -> (r: (Area, Area))
    requires
        area.wf(),
    ensures
        r == body_and_help(area),
        r.0.wf(),
        r.1.wf(),
{
    split(Cut::Rows { upper_min: BODY_MIN, lower: HELP_HEIGHT }, area)
}

/// The commit list, and the commit message beside it.
pub fn split_columns(body: Area) -> (r: (Area, Area))
    requires
        body.wf(),
    ensures
        r == list_and_message(body),
        r.0.wf(),
        r.1.wf(),
{
    split(Cut::Columns { percent: LIST_PERCENT, right_min: MESSAGE_MIN }, body)
}

/// The part of the screen that shows a commit: all but the help line.
pub fn show_body_rect(area: Area) -> (r: Area)
    requires
        area.wf(),
    ensures
        r == body_and_help(area).0,
        r.height == (if area.height >= 1 {
            area.height - 1
        } else {
            0
        }),
        r.x == area.x && r.y == area.y && r.width == area.width,
{
    split_help_line(area).0
}

/// How many lines of a commit fit between the borders of a body of this height; a
/// body that is too small still counts as one line.
pub open spec fn visible_in(body_height: int) -> int {
    if body_height >= 3 {
        body_height - 2
    } else {
        1
    }
}

/// How many lines of a commit fit between the borders of a body of this height.
pub fn visible_lines(body_height: u16) -> (n: usize)
    ensures
        n == visible_in(body_height as int),
{
    let n: usize = bordered_inner_lines(body_height);
    if n > 1 {
        n
    } else {
        1
    }
}

/// How many lines of a commit fit on a screen of this height.
pub open spec fn page_of(screen_height: int) -> int {
    visible_in(screen_height - 1)
}

/// How far `line_count` lines can be scrolled on a screen of this height: until
/// the last of them is the last one visible.
pub open spec fn max_scroll_of(line_count: int, screen_height: int) -> int {
    if line_count > page_of(screen_height) {
        line_count - page_of(screen_height)
    } else {
        0
    }
}

/// How many lines of a commit fit on the screen `area`.
pub fn page_lines(area: Area) -> (n: usize)
    requires
        area.wf(),
    ensures
        n == page_of(area.height as int),
{
    visible_lines(show_body_rect(area).height)
}

/// How far the lines of a commit can be scrolled on the screen `area`.
pub fn max_git_show_scroll(line_count: usize, area: Area) -> (n: usize)
    requires
        area.wf(),
    ensures
        n == max_scroll_of(line_count as int, area.height as int),
{
    line_count.saturating_sub(page_lines(area))
}

/// The parts of the screen lie within it and cover it: body and help line from top
/// to bottom, list and message from left to right.
pub proof fn law_layout_covers_screen(area: Area)
    requires
        area.wf(),
    ensures
        ({
            let (body, help) = body_and_help(area);
            let (list, message) = list_and_message(body);
            &&& body.wf() && help.wf() && list.wf() && message.wf()
            &&& body.y == area.y && body.y + body.height == help.y
            &&& help.y + help.height == area.y + area.height
            &&& body.x == area.x && help.x == area.x && body.width == area.width && help.width
                == area.width
            &&& list.x == body.x && list.x + list.width == message.x
            &&& message.x + message.width == body.x + body.width
            &&& list.y == body.y && message.y == body.y && list.height == body.height
                && message.height == body.height
            &&& message.width >= least(MESSAGE_MIN as int, area.width as int)
        }),
{
}

/// The parts of the screen by their sizes. The help line has one row, if there is
/// one, and the body the rest. The list has forty percent of the width, rounded to
/// the nearest column, but leaves the message twenty-eight, and the message has the
/// rest.
pub proof fn law_sizes_of_the_parts(area: Area)
    requires
        area.x + area.width <= 65535,
        area.y + area.height <= 65535,
    ensures
        ({
            let (body, help) = body_and_help(area);
            let (list, message) = list_and_message(body);
            let w = area.width as int;
            &&& help.height == (if area.height == 0 {
                0int
            } else {
                1
            })
            &&& body.height + help.height == area.height
            &&& help.y == area.y + body.height && body.y == area.y
            &&& w <= 28 ==> list.width == 0
            &&& list.width + message.width == w
            &&& message.width >= 28 || message.width == w
            &&& message.width > 28 ==> 2 * (100 * list.width - 40 * w) <= 100 && 2 * (40 * w - 100
                * list.width) < 100
            &&& 100 * list.width <= 40 * w + 50
            &&& message.x == area.x + list.width && list.x == area.x
        }),
{
}

/// How much of a commit a screen shows: the height less the border and the help
/// line, but at least one line. It scrolls just until the last line is on the page.
pub proof fn law_page_and_scroll(count: int, height: int)
    requires
        0 <= count,
    ensures
        page_of(height) >= 1,
        height >= 4 ==> page_of(height) == height - 3,
        height < 4 ==> page_of(height) == 1,
        max_scroll_of(count, height) >= 0,
        count <= page_of(height) <==> max_scroll_of(count, height) == 0,
        max_scroll_of(count, height) > 0 ==> max_scroll_of(count, height) + page_of(height) == count,
        visible_in(height - 1) == page_of(height),
        least(count, height) <= count && least(count, height) <= height,
        least(count, height) == count || least(count, height) == height,
{
}

} // verus!
