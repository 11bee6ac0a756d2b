use git_varro::layout::{
    bordered_inner_lines, max_git_show_scroll, page_lines, show_body_rect, split_columns,
    split_help_line, visible_lines, Area,
};
use ratatui::layout::{Constraint, Direction, Layout, Rect};

fn area(x: u16, y: u16, width: u16, height: u16) -> Area {
    Area { x, y, width, height }
}

#[test]
fn help_line_takes_the_last_row() {
    let (body, help) = split_help_line(area(2, 3, 10, 24));
    assert_eq!(body, area(2, 3, 10, 23));
    assert_eq!(help, area(2, 26, 10, 1));
}

#[test]
fn help_line_is_the_only_row_of_a_screen_of_height_one() {
    let (body, help) = split_help_line(area(0, 0, 80, 1));
    assert_eq!(body, area(0, 0, 80, 0));
    assert_eq!(help, area(0, 0, 80, 1));
    let (body, help) = split_help_line(area(0, 0, 80, 0));
    assert_eq!(body.height, 0);
    assert_eq!(help.height, 0);
}

#[test]
fn body_height_is_one_less_for_every_screen_height() {
    for h in 0..=u16::MAX {
        if h > 600 && h % 97 != 0 && h < 65000 {
            continue;
        }
        let (body, help) = split_help_line(area(0, 0, 80, h));
        assert_eq!(body.height, h.saturating_sub(1));
        assert_eq!(help.height, h.min(1));
        assert_eq!(help.y, body.height);
    }
}

#[test]
fn columns_are_forty_percent_and_the_rest() {
    let (list, message) = split_columns(area(0, 0, 100, 10));
    assert_eq!(list, area(0, 0, 40, 10));
    assert_eq!(message, area(40, 0, 60, 10));
    let (list, message) = split_columns(area(5, 1, 81, 10));
    assert_eq!(list, area(5, 1, 32, 10));
    assert_eq!(message, area(37, 1, 49, 10));
}

#[test]
fn message_keeps_its_least_width() {
    let (list, message) = split_columns(area(0, 0, 40, 10));
    assert_eq!(list.width, 12);
    assert_eq!(message.width, 28);
    let (list, message) = split_columns(area(0, 0, 20, 10));
    assert_eq!(list.width, 0);
    assert_eq!(message.width, 20);
}

#[test]
fn columns_for_every_width() {
    for w in 0..=u16::MAX {
        if w > 600 && w % 97 != 0 && w < 65000 {
            continue;
        }
        let (list, message) = split_columns(area(0, 0, w, 10));
        let wanted = ((40 * w as u32 + 50) / 100).min(w as u32 - 28.min(w as u32));
        assert_eq!(list.width as u32, wanted, "width {}", w);
        assert_eq!(message.x, list.width);
        assert_eq!(message.width, w - list.width);
    }
}

#[test]
fn two_rows_of_any_limits() {
    for total in [0u16, 1, 2, 3, 7, 24, 60, 200, 999, 40000, 65000] {
        for upper_min in [0u16, 1, 2, 5, 24, 500, 32767] {
            for lower in [0u16, 1, 2, 9, 100, 5000, 65535] {
                let parts = Layout::default()
                    .direction(Direction::Vertical)
                    .constraints([Constraint::Min(upper_min), Constraint::Length(lower)])
                    .split(Rect { x: 3, y: 11, width: 4, height: total });
                let below = lower.min(total - upper_min.min(total));
                assert_eq!(parts[0], Rect { x: 3, y: 11, width: 4, height: total - below });
                assert_eq!(parts[1], Rect { x: 3, y: 11 + total - below, width: 4, height: below });
            }
        }
    }
}

#[test]
fn two_columns_of_any_limits() {
    for total in [0u16, 1, 2, 3, 5, 7, 25, 50, 81, 200, 999, 40001, 65001] {
        for percent in [0u16, 1, 10, 33, 40, 50, 75, 99, 100] {
            for right_min in [0u16, 1, 2, 28, 100, 5000, 32767] {
                let parts = Layout::default()
                    .direction(Direction::Horizontal)
                    .constraints([Constraint::Percentage(percent), Constraint::Min(right_min)])
                    .split(Rect { x: 11, y: 3, width: total, height: 4 });
                let rounded = ((percent as u32 * total as u32 + 50) / 100) as u16;
                let left = rounded.min(total - right_min.min(total));
                assert_eq!(parts[0], Rect { x: 11, y: 3, width: left, height: 4 }, "{} {} {}", total, percent, right_min);
                assert_eq!(parts[1], Rect { x: 11 + left, y: 3, width: total - left, height: 4 });
            }
        }
    }
}

#[test]
fn borders_take_two_lines() {
    assert_eq!(bordered_inner_lines(0), 0);
    assert_eq!(bordered_inner_lines(1), 0);
    assert_eq!(bordered_inner_lines(2), 0);
    assert_eq!(bordered_inner_lines(3), 1);
    assert_eq!(bordered_inner_lines(65535), 65533);
}

#[test]
fn a_page_has_at_least_one_line() {
    assert_eq!(visible_lines(0), 1);
    assert_eq!(visible_lines(3), 1);
    assert_eq!(visible_lines(4), 2);
    assert_eq!(page_lines(area(0, 0, 80, 24)), 21);
    assert_eq!(show_body_rect(area(0, 0, 80, 24)), area(0, 0, 80, 23));
}

#[test]
fn scroll_ends_at_the_last_page() {
    assert_eq!(max_git_show_scroll(100, area(0, 0, 80, 24)), 79);
    assert_eq!(max_git_show_scroll(21, area(0, 0, 80, 24)), 0);
    assert_eq!(max_git_show_scroll(22, area(0, 0, 80, 24)), 1);
    assert_eq!(max_git_show_scroll(0, area(0, 0, 80, 24)), 0);
    assert_eq!(max_git_show_scroll(5, area(0, 0, 80, 0)), 4);
}

#[test]
fn a_new_area_ends_at_the_largest_coordinate() {
    assert_eq!(Area::new(1, 2, 3, 4), area(1, 2, 3, 4));
    assert_eq!(Area::new(65000, 65535, 1000, 7), area(65000, 65535, 535, 0));
}
