use git_varro::browser::{
    has_pager, select_next, select_prev, settle_selection, Action, App, CommitSort, Event,
    KeyCode, Mode, ShowOutcome,
};
use git_varro::error::SearchError;
use git_varro::hits::SearchHit;
use git_varro::layout::Area;
use git_varro::score::Score;
use git_varro::screen::{draw_show, row_head, score_line, Screen};
use ratatui::buffer::Buffer;
use ratatui::layout::Rect;
use ratatui::widgets::{Block, List, ListState, StatefulWidget};

fn hit(sha: &str, message: &str, score: f64) -> SearchHit {
    SearchHit {
        full_sha: sha.to_string(),
        message: message.to_string(),
        score: Score { bits: score.to_bits() },
    }
}

fn browser() -> App {
    let a = hit("aaaaaaaaaa", "first\n\nbody a", 0.1);
    let b = hit("bbbbbbbbbb", "second", 0.9);
    let c = hit("cccccccccc", "third", 0.5);
    App::new(
        "/repo".to_string(),
        vec![a.clone(), b.clone(), c.clone()],
        vec![b, c, a],
    )
}

fn press(app: &mut App, code: KeyCode) -> Action {
    app.handle(Event::Key { pressed: true, code }, Some((80, 24)))
}

fn text(lines: usize) -> String {
    (0..lines).map(|i| format!("line {}\n", i)).collect()
}

fn scroll(app: &App) -> usize {
    match &app.mode {
        Mode::Show { scroll, .. } => *scroll,
        Mode::Browse => panic!("no commit is shown"),
    }
}

#[test]
fn the_browser_starts_by_date_at_the_first_hit() {
    let app = browser();
    assert_eq!(app.sort, CommitSort::Date);
    assert_eq!(CommitSort::default(), CommitSort::Date);
    assert_eq!(app.selected, Some(0));
    assert!(matches!(app.mode, Mode::Browse));
    assert_eq!(app.hits()[0].full_sha, "aaaaaaaaaa");
}

#[test]
fn the_selection_goes_round() {
    let mut app = browser();
    press(&mut app, KeyCode::Up);
    assert_eq!(app.selected, Some(2));
    press(&mut app, KeyCode::Char('j'));
    assert_eq!(app.selected, Some(0));
    press(&mut app, KeyCode::Down);
    press(&mut app, KeyCode::Down);
    assert_eq!(app.selected, Some(2));
    press(&mut app, KeyCode::Down);
    assert_eq!(app.selected, Some(0));
    press(&mut app, KeyCode::Char('j'));
    press(&mut app, KeyCode::Char('k'));
    assert_eq!(app.selected, Some(0));
}

#[test]
fn selecting_in_an_empty_list_does_nothing() {
    let mut selected = Some(4);
    select_next(&mut selected, 0);
    select_prev(&mut selected, 0);
    assert_eq!(selected, Some(4));
    let mut none = None;
    select_next(&mut none, 3);
    assert_eq!(none, Some(1));
    let mut none = None;
    select_prev(&mut none, 3);
    assert_eq!(none, Some(2));
    let mut far = Some(usize::MAX);
    select_next(&mut far, 3);
    assert_eq!(far, Some(0));
}

#[test]
fn t_toggles_the_order_and_nothing_else() {
    let mut app = browser();
    press(&mut app, KeyCode::Down);
    assert!(matches!(press(&mut app, KeyCode::Char('t')), Action::Continue));
    assert_eq!(app.sort, CommitSort::Score);
    assert_eq!(app.selected, Some(1));
    assert_eq!(app.hits()[0].full_sha, "bbbbbbbbbb");
    press(&mut app, KeyCode::Char('t'));
    assert_eq!(app.sort, CommitSort::Date);
    assert_eq!(app.selected, Some(1));
}

#[test]
fn enter_opens_the_selected_commit() {
    let mut app = browser();
    press(&mut app, KeyCode::Down);
    match press(&mut app, KeyCode::Enter) {
        Action::OpenShow { sha } => assert_eq!(sha, "bbbbbbbbbb"),
        other => panic!("{:?}", other),
    }
    press(&mut app, KeyCode::Char('t'));
    match press(&mut app, KeyCode::Enter) {
        Action::OpenShow { sha } => assert_eq!(sha, "cccccccccc"),
        other => panic!("{:?}", other),
    }
    assert!(matches!(app.mode, Mode::Browse));
}

#[test]
fn enter_without_a_hit_does_nothing() {
    let mut app = App::new("/repo".to_string(), vec![], vec![]);
    assert!(matches!(press(&mut app, KeyCode::Enter), Action::Continue));
    let mut app = browser();
    app.selected = None;
    assert!(matches!(press(&mut app, KeyCode::Enter), Action::Continue));
}

#[test]
fn capital_q_quits_from_everywhere() {
    let mut app = browser();
    assert!(matches!(press(&mut app, KeyCode::Char('Q')), Action::Quit));
    app.open_show("aaaaaaaaaa".to_string(), &text(5));
    assert!(matches!(press(&mut app, KeyCode::Char('Q')), Action::Quit));
    assert!(matches!(app.mode, Mode::Show { .. }));
}

#[test]
fn small_q_and_esc_go_back_to_the_list() {
    for code in [KeyCode::Esc, KeyCode::Char('q')] {
        let mut app = browser();
        press(&mut app, KeyCode::Down);
        press(&mut app, KeyCode::Char('t'));
        app.open_show("x".to_string(), &text(100));
        press(&mut app, KeyCode::PageDown);
        press(&mut app, KeyCode::Char('t'));
        assert!(matches!(press(&mut app, code), Action::Continue));
        assert!(matches!(app.mode, Mode::Browse));
        assert_eq!(app.selected, Some(1));
        assert_eq!(app.sort, CommitSort::Score);
        assert!(matches!(press(&mut app, code), Action::Continue));
        assert!(matches!(app.mode, Mode::Browse));
    }
}

#[test]
fn only_pressed_keys_count() {
    let mut app = browser();
    let released = Event::Key { pressed: false, code: KeyCode::Char('Q') };
    assert!(matches!(app.handle(released, None), Action::Continue));
    assert!(matches!(app.handle(Event::Resize, None), Action::Continue));
    assert!(matches!(app.handle(Event::Other, Some((1, 1))), Action::Continue));
    assert!(matches!(press(&mut app, KeyCode::Other), Action::Continue));
    assert!(matches!(press(&mut app, KeyCode::Char('x')), Action::Continue));
    assert_eq!(app.selected, Some(0));
}

#[test]
fn scrolling_stops_at_both_ends() {
    let mut app = browser();
    app.open_show("x".to_string(), &text(30));
    assert_eq!(scroll(&app), 0);
    press(&mut app, KeyCode::Up);
    assert_eq!(scroll(&app), 0);
    press(&mut app, KeyCode::Down);
    press(&mut app, KeyCode::Char('j'));
    assert_eq!(scroll(&app), 2);
    press(&mut app, KeyCode::Char('k'));
    assert_eq!(scroll(&app), 1);
    press(&mut app, KeyCode::PageDown);
    assert_eq!(scroll(&app), 9);
    press(&mut app, KeyCode::Down);
    assert_eq!(scroll(&app), 9);
    press(&mut app, KeyCode::PageUp);
    assert_eq!(scroll(&app), 0);
}

#[test]
fn a_page_up_undoes_a_page_down() {
    let mut app = browser();
    app.open_show("x".to_string(), &text(200));
    press(&mut app, KeyCode::Down);
    press(&mut app, KeyCode::PageDown);
    assert_eq!(scroll(&app), 22);
    press(&mut app, KeyCode::PageUp);
    assert_eq!(scroll(&app), 1);
}

#[test]
fn a_terminal_of_unknown_size_has_twenty_four_lines() {
    let mut app = browser();
    app.open_show("x".to_string(), &text(100));
    app.handle(Event::Key { pressed: true, code: KeyCode::PageDown }, None);
    assert_eq!(scroll(&app), 21);
}

#[test]
fn drawing_cuts_the_scroll_back() {
    let mut app = browser();
    app.open_show("x".to_string(), &text(30));
    press(&mut app, KeyCode::PageDown);
    assert_eq!(scroll(&app), 9);
    app.draw(Area::new(0, 0, 80, 33));
    assert_eq!(scroll(&app), 0);
}

#[test]
fn the_list_on_the_screen() {
    let mut app = browser();
    let screen = match app.draw(Area::new(0, 0, 100, 24)) {
        Screen::Browse(screen) => screen,
        Screen::Show(screen) => panic!("{:?}", screen),
    };
    assert_eq!(screen.title, " commits (main, newest first) ");
    assert_eq!(screen.rows.len(), 3);
    assert_eq!(screen.rows[0].head, "aaaaaaa  first");
    assert_eq!(screen.rows[1].head, "bbbbbbb  second");
    assert_eq!(screen.rows[1].score.bits, 0.9f64.to_bits());
    assert_eq!(screen.selected, Some(0));
    assert_eq!(screen.message_text, "first\n\nbody a");
    assert_eq!(
        screen.help_text,
        " repo: /repo   ↑/↓/j/k: move   Enter: git show   Q: quit "
    );
    assert_eq!(screen.list, Area::new(0, 0, 40, 23));
    assert_eq!(screen.message, Area::new(40, 0, 60, 23));
    assert_eq!(screen.help, Area::new(0, 23, 100, 1));
}

#[test]
fn the_list_by_score_on_the_screen() {
    let mut app = browser();
    press(&mut app, KeyCode::Char('t'));
    match app.draw(Area::new(0, 0, 100, 24)) {
        Screen::Browse(screen) => {
            assert_eq!(screen.title, " commits (main, best match first) ");
            assert_eq!(screen.rows[0].head, "bbbbbbb  second");
            assert_eq!(screen.message_text, "second");
        }
        Screen::Show(screen) => panic!("{:?}", screen),
    }
}

#[test]
fn drawing_brings_the_selection_into_the_list() {
    let mut app = browser();
    app.selected = Some(3);
    let screen = app.draw_browse(Area::new(0, 0, 100, 24));
    assert_eq!(screen.rows.len(), 3);
    assert_eq!(screen.selected, Some(2));
    assert_eq!(screen.message_text, "third");
    assert_eq!(app.selected, Some(2));
    app.selected = None;
    let screen = app.draw_browse(Area::new(0, 0, 100, 24));
    assert_eq!(screen.selected, None);
    assert_eq!(screen.message_text, "first\n\nbody a");
}

#[test]
fn a_list_without_room_leaves_the_selection() {
    let mut app = browser();
    app.selected = Some(3);
    let screen = app.draw_browse(Area::new(0, 0, 100, 3));
    assert_eq!(screen.selected, Some(3));
    assert_eq!(screen.message_text, "");
    assert_eq!(app.selected, Some(3));
}

#[test]
fn the_selection_settles_as_in_the_list_widget() {
    for width in 0..5u16 {
        for height in 0..5u16 {
            for len in 0..3usize {
                for start in [None, Some(0), Some(1), Some(2), Some(usize::MAX)] {
                    let area = Rect::new(0, 0, width, height);
                    let mut state = ListState::default().with_selected(start);
                    let list = List::new(vec!["x"; len]).block(Block::bordered().title("t"));
                    StatefulWidget::render(list, area, &mut Buffer::empty(area), &mut state);
                    let mut selected = start;
                    settle_selection(&mut selected, len, Area::new(0, 0, width, height));
                    assert_eq!(selected, state.selected());
                }
            }
        }
    }
}

#[test]
fn events_keep_the_hits() {
    let mut app = browser();
    let codes = [
        KeyCode::Up,
        KeyCode::Char('t'),
        KeyCode::Enter,
        KeyCode::PageDown,
        KeyCode::Char('q'),
        KeyCode::Char('t'),
        KeyCode::Esc,
    ];
    for code in codes {
        press(&mut app, code);
        let mut shown: Vec<&str> = app.hits().iter().map(|h| h.full_sha.as_str()).collect();
        shown.sort();
        assert_eq!(shown, vec!["aaaaaaaaaa", "bbbbbbbbbb", "cccccccccc"]);
    }
    assert_eq!(app.hits()[0].full_sha, "aaaaaaaaaa");
}

#[test]
fn out_of_the_pager_the_browser_is_as_it_was() {
    for code in [Some(0), None] {
        let mut app = browser();
        press(&mut app, KeyCode::Down);
        press(&mut app, KeyCode::Char('t'));
        let outcome = ShowOutcome::Paged { code };
        assert!(app.after_show("cccccccccc".to_string(), outcome).is_ok());
        assert!(matches!(app.mode, Mode::Browse));
        assert_eq!(app.selected, Some(1));
        assert_eq!(app.sort, CommitSort::Score);
    }
}

#[test]
fn captured_output_is_shown_in_the_browser() {
    let mut app = browser();
    let outcome = ShowOutcome::Captured { code: Some(0), text: "commit a\r\n\nend".to_string() };
    assert!(app.after_show("aaaaaaaaaa".to_string(), outcome).is_ok());
    match &app.mode {
        Mode::Show { sha, lines, scroll } => {
            assert_eq!(sha, "aaaaaaaaaa");
            assert_eq!(lines, &vec!["commit a", "", "end"]);
            assert_eq!(*scroll, 0);
        }
        Mode::Browse => panic!("no commit is shown"),
    }
    press(&mut app, KeyCode::Char('q'));
    assert!(matches!(app.mode, Mode::Browse));
}

#[test]
fn a_failed_git_show_ends_the_browser() {
    let outcomes = vec![
        ShowOutcome::NotStarted,
        ShowOutcome::Paged { code: Some(128) },
        ShowOutcome::Paged { code: Some(-1) },
        ShowOutcome::Captured { code: Some(1), text: "x".to_string() },
        ShowOutcome::Captured { code: None, text: "x".to_string() },
    ];
    for outcome in outcomes {
        let mut app = browser();
        match app.after_show("aaaaaaaaaa".to_string(), outcome) {
            Err(SearchError::ShowFailed) => {}
            other => panic!("{:?}", other),
        }
        assert!(matches!(app.mode, Mode::Browse));
    }
    assert_eq!(SearchError::ShowFailed.message(), "git show");
}

#[test]
fn an_empty_setting_or_cat_is_no_pager() {
    assert!(has_pager("less\n"));
    assert!(has_pager("less -R"));
    assert!(has_pager("cat -n"));
    assert!(!has_pager("cat\n"));
    assert!(!has_pager(" cat "));
    assert!(!has_pager("\n"));
    assert!(!has_pager(""));
}

#[test]
fn an_empty_list_has_no_message() {
    let mut app = App::new("/repo".to_string(), vec![], vec![]);
    match app.draw(Area::new(0, 0, 100, 24)) {
        Screen::Browse(screen) => {
            assert!(screen.rows.is_empty());
            assert_eq!(screen.selected, None);
            assert_eq!(screen.message_text, "");
        }
        Screen::Show(screen) => panic!("{:?}", screen),
    }
}

#[test]
fn a_commit_on_the_screen() {
    let mut app = browser();
    app.open_show("cccccccccc".to_string(), &text(30));
    press(&mut app, KeyCode::Down);
    let screen = match app.draw(Area::new(0, 0, 80, 24)) {
        Screen::Show(screen) => screen,
        Screen::Browse(screen) => panic!("{:?}", screen),
    };
    assert_eq!(screen.title, " git show cccccccccc ");
    assert_eq!(screen.lines.len(), 21);
    assert_eq!(screen.lines[0], "line 1");
    assert_eq!(screen.lines[20], "line 21");
    assert_eq!(
        screen.status,
        " lines 2–22 of 30   ↑/↓/j/k PgUp/PgDn: scroll   q/Esc: back   Q: quit "
    );
    assert_eq!(screen.body, Area::new(0, 0, 80, 23));
    assert_eq!(screen.help, Area::new(0, 23, 80, 1));
}

#[test]
fn a_commit_scrolled_too_far_shows_its_last_page() {
    let lines: Vec<String> = (0..10).map(|i| i.to_string()).collect();
    let screen = draw_show("x", &lines, usize::MAX, Area::new(0, 0, 80, 8));
    assert_eq!(screen.lines, vec!["5", "6", "7", "8", "9"]);
    assert_eq!(
        screen.status,
        " lines 6–10 of 10   ↑/↓/j/k PgUp/PgDn: scroll   q/Esc: back   Q: quit "
    );
}

#[test]
fn an_empty_commit_has_no_lines() {
    let screen = draw_show("x", &vec![], 0, Area::new(0, 0, 80, 24));
    assert!(screen.lines.is_empty());
    assert_eq!(
        screen.status,
        " lines 0–0 of 0   ↑/↓/j/k PgUp/PgDn: scroll   q/Esc: back   Q: quit "
    );
}

#[test]
fn rows_have_name_subject_and_score() {
    assert_eq!(row_head(&hit("0123456789", "subject \nbody", 1.0)), "0123456  subject");
    assert_eq!(score_line("0.5000"), "score 0.5000");
}
