//! The browser: the state of the terminal interface, and what keys do to it.
use vstd::prelude::*;
use vstd::string::*;

use crate::error::SearchError;
use crate::hits::{hit_views, HitView, SearchHit};
use crate::layout::{
    body_and_help, law_page_and_scroll, least, list_and_message, max_git_show_scroll,
    max_scroll_of, page_lines, page_of, Area,
};
use crate::text::{
    law_trim_takes_white_space_off, lines_of, same_text, shortenable, split_lines, text_views,
    trim, trim_of, white_space,
};

verus! {

/// The order of the commit list.
#[derive(Clone, Copy, Debug, PartialEq, Eq, Structural)]
pub enum CommitSort {
    /// By the history of `main`, newest first.
    Date,
    /// By score, best match first.
    Score,
}

impl Default for CommitSort {
    fn default() -> (r: Self)
        ensures
            r == CommitSort::Date,
    {
        CommitSort::Date
    }
}

/// What the screen shows: the commit list, or one commit.
#[derive(Debug)]
pub enum Mode {
    Browse,
    Show { sha: String, lines: Vec<String>, scroll: usize },
}

/// What a [`Mode`] says.
pub enum ModeView {
    Browse,
    Show { sha: Seq<char>, lines: Seq<Seq<char>>, scroll: int },
}

impl View for Mode {
    type V = ModeView;

    open spec fn view(&self) -> ModeView {
        match *self {
            Mode::Browse => ModeView::Browse,
            Mode::Show { sha, lines, scroll } => ModeView::Show {
                sha: sha@,
                lines: text_views(lines@),
                scroll: scroll as int,
            },
        }
    }
}

/// The state of the browser: the hits in both orders, which order is shown, which
/// hit is selected, and what the screen shows.
#[derive(Debug)]
pub struct App {
    pub repo: String,
    pub date_ordered: Vec<SearchHit>,
    pub score_ordered: Vec<SearchHit>,
    pub sort: CommitSort,
    pub selected: Option<usize>,
    pub mode: Mode,
}

/// What an [`App`] says.
pub struct AppView {
    pub repo: Seq<char>,
    pub date_ordered: Seq<HitView>,
    pub score_ordered: Seq<HitView>,
    pub sort: CommitSort,
    pub selected: Option<int>,
    pub mode: ModeView,
}

impl View for App {
    type V = AppView;

    open spec fn view(&self) -> AppView {
        AppView {
            repo: self.repo@,
            date_ordered: hit_views(self.date_ordered@),
            score_ordered: hit_views(self.score_ordered@),
            sort: self.sort,
            selected: match self.selected {
                Some(i) => Some(i as int),
                None => None,
            },
            mode: self.mode@,
        }
    }
}

/// Every object name can be cut for display.
pub open spec fn all_shortenable(hits: Seq<HitView>) -> bool {
    forall|i: int| 0 <= i < hits.len() ==> shortenable((#[trigger] hits[i]).sha)
}

impl AppView {
    /// The hits in the order that is shown.
    pub open spec fn hits(self) -> Seq<HitView> {
        match self.sort {
            CommitSort::Date => self.date_ordered,
            CommitSort::Score => self.score_ordered,
        }
    }

    /// Both orders have as many hits, and all can be displayed; the selection is
    /// one of them, if there is any; a commit is scrolled within its lines.
    pub open spec fn wf(self) -> bool {
        &&& self.date_ordered.len() == self.score_ordered.len()
        &&& all_shortenable(self.date_ordered)
        &&& all_shortenable(self.score_ordered)
        &&& self.selected matches Some(i) ==> 0 <= i && (self.hits().len() > 0 ==> i
            < self.hits().len())
        &&& self.mode matches ModeView::Show { lines, scroll, .. } ==> 0 <= scroll <= lines.len()
    }
}

/// A key of the keyboard.
#[derive(Clone, Copy, Debug, PartialEq, Eq, Structural)]
pub enum KeyCode {
    Up,
    Down,
    Enter,
    Esc,
    PageUp,
    PageDown,
    Char(char),
    Other,
}

/// An event of the terminal.
#[derive(Clone, Copy, Debug)]
pub enum Event {
    /// A key was pressed, or else repeated or released.
    Key { pressed: bool, code: KeyCode },
    /// The terminal has another size.
    Resize,
    /// Anything else.
    Other,
}

/// What there is to do after an event.
#[derive(Debug)]
pub enum Action {
    /// Draw, and wait for the next event.
    Continue,
    /// Leave the browser.
    Quit,
    /// Open `git show` for this commit.
    OpenShow { sha: String },
}

/// What an [`Action`] says.
pub enum ActionView {
    Continue,
    Quit,
    OpenShow(Seq<char>),
}

impl View for Action {
    type V = ActionView;

    open spec fn view(&self) -> ActionView {
        match *self {
            Action::Continue => ActionView::Continue,
            Action::Quit => ActionView::Quit,
            Action::OpenShow { sha } => ActionView::OpenShow(sha@),
        }
    }
}

/// How `git show` ended. The code is that of its exit, and there is none where a
/// signal ended it.
#[derive(Debug)]
pub enum ShowOutcome {
    /// It could not be started.
    NotStarted,
    /// It ran in the pager.
    Paged { code: Option<i32> },
    /// It ran without one, and wrote `text`.
    Captured { code: Option<i32>, text: String },
}

/// The browser with the commit `sha` shown from the first of `lines`.
pub open spec fn showing(app: AppView, sha: Seq<char>, lines: Seq<Seq<char>>) -> AppView {
    AppView { mode: ModeView::Show { sha, lines, scroll: 0 }, ..app }
}

/// What follows `git show` for the commit `sha`: the browser goes on, or it ends
/// with an error (`None`). Out of the pager it goes on as it was, also where the
/// pager was left early and a signal ended `git show`. What was captured is shown.
pub open spec fn after_show_of(app: AppView, sha: Seq<char>, outcome: ShowOutcome) -> Option<
    AppView,
> {
    match outcome {
        ShowOutcome::NotStarted => None,
        ShowOutcome::Paged { code } => if code is None || code == Some(0i32) {
            Some(app)
        } else {
            None
        },
        ShowOutcome::Captured { code, text } => if code == Some(0i32) {
            Some(showing(app, sha, lines_of(text@)))
        } else {
            None
        },
    }
}

/// Whether git shows its output in a pager, where its setting for the pager is
/// `setting`: one that is empty or `cat` stands for none.
pub open spec fn pages(setting: Seq<char>) -> bool {
    trim_of(setting).len() > 0 && trim_of(setting) != "cat"@
}

/// Whether git shows its output in a pager, from its setting for the pager.
pub fn has_pager(setting: &str) -> (r: bool)
    ensures
        r == pages(setting@),
{
    let pager: &str = trim(setting);
    proof {
        reveal_strlit("");
        assert(pager@.len() == 0 ==> pager@ =~= ""@);
    }
    !same_text(pager, "") && !same_text(pager, "cat")
}

/// The selection one up in a list of `len` hits, from the first to the last.
pub open spec fn prev_of(selected: Option<int>, len: int) -> Option<int> {
    let i = match selected {
        Some(i) => i,
        None => 0,
    };
    if len == 0 {
        selected
    } else if i == 0 {
        Some(len - 1)
    } else {
        Some(i - 1)
    }
}

/// The selection one down in a list of `len` hits, from the last to the first.
pub open spec fn next_of(selected: Option<int>, len: int) -> Option<int> {
    let i = match selected {
        Some(i) => i,
        None => 0,
    };
    if len == 0 {
        selected
    } else if i + 1 >= len {
        Some(0)
    } else {
        Some(i + 1)
    }
}

/// The other order.
pub open spec fn other_sort(sort: CommitSort) -> CommitSort {
    match sort {
        CommitSort::Date => CommitSort::Score,
        CommitSort::Score => CommitSort::Date,
    }
}

/// What a key does in the commit list.
pub open spec fn pressed_in_list(app: AppView, code: KeyCode) -> (AppView, ActionView) {
    let len = app.hits().len() as int;
    match code {
        KeyCode::Char('Q') => (app, ActionView::Quit),
        KeyCode::Up | KeyCode::Char('k') => (
            AppView { selected: prev_of(app.selected, len), ..app },
            ActionView::Continue,
        ),
        KeyCode::Down | KeyCode::Char('j') => (
            AppView { selected: next_of(app.selected, len), ..app },
            ActionView::Continue,
        ),
        KeyCode::Char('t') => (
            AppView { sort: other_sort(app.sort), ..app },
            ActionView::Continue,
        ),
        KeyCode::Enter => match app.selected {
            Some(i) if 0 <= i < len => (app, ActionView::OpenShow(app.hits()[i].sha)),
            _ => (app, ActionView::Continue),
        },
        _ => (app, ActionView::Continue),
    }
}

/// Where a key scrolls a commit of `count` lines, on a screen of height `height`.
pub open spec fn scrolled(scroll: int, code: KeyCode, count: int, height: int) -> int {
    let max = max_scroll_of(count, height);
    match code {
        KeyCode::Up | KeyCode::Char('k') => if scroll >= 1 {
            scroll - 1
        } else {
            0
        },
        KeyCode::Down | KeyCode::Char('j') => least(scroll + 1, max),
        KeyCode::PageUp => if scroll >= page_of(height) {
            scroll - page_of(height)
        } else {
            0
        },
        KeyCode::PageDown => least(scroll + page_of(height), max),
        _ => scroll,
    }
}

/// What a key does while a commit is shown, on a screen of height `height`.
pub open spec fn pressed_in_show(app: AppView, code: KeyCode, height: int) -> (
    AppView,
    ActionView,
) {
    match app.mode {
        ModeView::Show { sha, lines, scroll } => match code {
            KeyCode::Char('Q') => (app, ActionView::Quit),
            KeyCode::Esc | KeyCode::Char('q') => (
                AppView { mode: ModeView::Browse, ..app },
                ActionView::Continue,
            ),
            _ => (
                AppView {
                    mode: ModeView::Show {
                        sha,
                        lines,
                        scroll: scrolled(scroll, code, lines.len() as int, height),
                    },
                    ..app
                },
                ActionView::Continue,
            ),
        },
        ModeView::Browse => (app, ActionView::Continue),
    }
}

/// What a key does, on a screen of height `height`.
pub open spec fn pressed(app: AppView, code: KeyCode, height: int) -> (AppView, ActionView) {
    match app.mode {
        ModeView::Browse => pressed_in_list(app, code),
        ModeView::Show { .. } => pressed_in_show(app, code, height),
    }
}

/// The height of the screen: that of the terminal or, where it is not known,
/// twenty-four lines.
pub open spec fn height_of(size: Option<(u16, u16)>) -> int {
    match size {
        Some((w, h)) => h as int,
        None => 24,
    }
}

/// What an event does, with the size of the terminal where it is known.
pub open spec fn handled(app: AppView, event: Event, size: Option<(u16, u16)>) -> (
    AppView,
    ActionView,
) {
    match event {
        Event::Key { pressed: true, code } => pressed(app, code, height_of(size)),
        _ => (app, ActionView::Continue),
    }
}

/// The browser with the scroll cut back to what a screen of height `height` allows.
pub open spec fn clamped(app: AppView, height: int) -> AppView {
    match app.mode {
        ModeView::Show { sha, lines, scroll } => AppView {
            mode: ModeView::Show {
                sha,
                lines,
                scroll: least(scroll, max_scroll_of(lines.len() as int, height)),
            },
            ..app
        },
        ModeView::Browse => app,
    }
}

/// The list has room for hits inside its border.
pub open spec fn has_room(list: Area) -> bool {
    list.width > 2 && list.height > 2
}

/// The selection that a list of `len` hits can show in the area `list`: past the
/// end it is the last hit, and there is none in an empty list. A list without room
/// for hits leaves it as it is.
pub open spec fn settled_in(selected: Option<int>, len: int, list: Area) -> Option<int> {
    if !has_room(list) {
        selected
    } else if len == 0 {
        None
    } else {
        match selected {
            Some(i) if i >= len => Some(len - 1),
            _ => selected,
        }
    }
}

/// The browser with a selection that the list on the screen `area` can show.
pub open spec fn settled(app: AppView, area: Area) -> AppView {
    AppView {
        selected: settled_in(
            app.selected,
            app.hits().len() as int,
            list_and_message(body_and_help(area).0).0,
        ),
        ..app
    }
}

/// The browser after it was drawn on the screen `area`.
pub open spec fn drawn(app: AppView, area: Area) -> AppView {
    match app.mode {
        ModeView::Browse => settled(app, area),
        ModeView::Show { .. } => clamped(app, area.height as int),
    }
}

/// Brings the selection to one that a list of `len` hits can show in the area `list`.
pub fn settle_selection(selected: &mut Option<usize>, len: usize, list: Area)
    ensures
        index_view(*final(selected)) == settled_in(index_view(*old(selected)), len as int, list),
{
    if list.width <= 2 || list.height <= 2 {
        return;
    }
    if len == 0 {
        *selected = None;
        return;
    }
    match *selected {
        Some(i) => {
            if i >= len {
                *selected = Some(len - 1);
            }
        },
        None => {},
    }
}

/// Moves the selection one up in a list of `len` hits, from the first to the last.
pub fn select_prev(selected: &mut Option<usize>, len: usize)
    ensures
        index_view(*final(selected)) == prev_of(index_view(*old(selected)), len as int),
{
    if len == 0 {
        return;
    }
    let i: usize = match *selected {
        Some(i) => i,
        None => 0,
    };
    let n: usize = if i == 0 {
        len - 1
    } else {
        i - 1
    };
    *selected = Some(n);
}

/// Moves the selection one down in a list of `len` hits, from the last to the first.
pub fn select_next(selected: &mut Option<usize>, len: usize)
    ensures
        index_view(*final(selected)) == next_of(index_view(*old(selected)), len as int),
{
    if len == 0 {
        return;
    }
    let i: usize = match *selected {
        Some(i) => i,
        None => 0,
    };
    let n: usize = if i >= len - 1 {
        0
    } else {
        i + 1
    };
    *selected = Some(n);
}

/// The index as an integer.
pub open spec fn index_view(i: Option<usize>) -> Option<int> {
    match i {
        Some(k) => Some(k as int),
        None => None,
    }
}

/// Where a key scrolls a commit of `count` lines on the screen `area`.
fn scroll_by(scroll: usize, code: KeyCode, count: usize, area: Area) -> (r: usize)
    requires
        area.wf(),
    ensures
        r == scrolled(scroll as int, code, count as int, area.height as int),
{
    let max: usize = max_git_show_scroll(count, area);
    let page: usize = page_lines(area);
    match code {
        KeyCode::Up | KeyCode::Char('k') => scroll.saturating_sub(1),
        KeyCode::Down | KeyCode::Char('j') => lesser(scroll.saturating_add(1), max),
        KeyCode::PageUp => scroll.saturating_sub(page),
        KeyCode::PageDown => lesser(scroll.saturating_add(page), max),
        _ => scroll,
    }
}

fn lesser(a: usize, b: usize) -> (r: usize)
    ensures
        r == least(a as int, b as int),
{
    if a <= b {
        a
    } else {
        b
    }
}

impl App {
    /// The browser at its start: the hits by date, the first one selected.
    pub fn new(repo: String, date_ordered: Vec<SearchHit>, score_ordered: Vec<SearchHit>) -> (r: App)
        requires
            date_ordered@.len() == score_ordered@.len(),
            all_shortenable(hit_views(date_ordered@)),
            all_shortenable(hit_views(score_ordered@)),
        ensures
            r@.wf(),
            r@ == (AppView {
                repo: repo@,
                date_ordered: hit_views(date_ordered@),
                score_ordered: hit_views(score_ordered@),
                sort: CommitSort::Date,
                selected: Some(0),
                mode: ModeView::Browse,
            }),
    {
        App {
            repo,
            date_ordered,
            score_ordered,
            sort: CommitSort::default(),
            selected: Some(0),
            mode: Mode::Browse,
        }
    }

    /// The hits in the order that is shown.
    pub fn hits(&self) -> (r: &Vec<SearchHit>)
        ensures
            hit_views(r@) == self@.hits(),
            r@.len() == self@.hits().len(),
    {
        match self.sort {
            CommitSort::Date => &self.date_ordered,
            CommitSort::Score => &self.score_ordered,
        }
    }

    fn press_in_list(&mut self, code: KeyCode) -> (r: Action)
        requires
            old(self).mode is Browse,
        ensures
            (final(self)@, r@) == pressed_in_list(old(self)@, code),
    {
        let len: usize = self.hits().len();
        match code {
            KeyCode::Char('Q') => Action::Quit,
            KeyCode::Up | KeyCode::Char('k') => {
                select_prev(&mut self.selected, len);
                Action::Continue
            },
            KeyCode::Down | KeyCode::Char('j') => {
                select_next(&mut self.selected, len);
                Action::Continue
            },
            KeyCode::Char('t') => {
                self.sort = match self.sort {
                    CommitSort::Date => CommitSort::Score,
                    CommitSort::Score => CommitSort::Date,
                };
                Action::Continue
            },
            KeyCode::Enter => {
                match self.selected {
                    Some(i) => {
                        if i < len {
                            let hits: &Vec<SearchHit> = self.hits();
                            assert(hit_views(hits@).len() == hits@.len());
                            assert(self@.hits()[i as int] == hits@[i as int]@);
                            Action::OpenShow { sha: hits[i].full_sha.clone() }
                        } else {
                            Action::Continue
                        }
                    },
                    None => Action::Continue,
                }
            },
            _ => Action::Continue,
        }
    }

    /// Takes a key, on the screen `area`.
    pub fn press(&mut self, code: KeyCode, area: Area) -> (r: Action)
        requires
            area.wf(),
        ensures
            (final(self)@, r@) == pressed(old(self)@, code, area.height as int),
            old(self)@.wf() ==> final(self)@.wf(),
    {
        match &mut self.mode {
            Mode::Browse => {},
            Mode::Show { lines, scroll, .. } => {
                match code {
                    KeyCode::Char('Q') => {
                        return Action::Quit;
                    },
                    KeyCode::Esc | KeyCode::Char('q') => {
                        self.mode = Mode::Browse;
                    },
                    _ => {
                        *scroll = scroll_by(*scroll, code, lines.len(), area);
                    },
                }
                return Action::Continue;
            },
        }
        self.press_in_list(code)
    }

    /// Takes an event of the terminal, with the size of the terminal where it is
    /// known. Only keys that are pressed have an effect.
    pub fn handle(&mut self, event: Event, size: Option<(u16, u16)>) -> (r: Action)
        ensures
            (final(self)@, r@) == handled(old(self)@, event, size),
            old(self)@.wf() ==> final(self)@.wf(),
    {
        match event {
            Event::Key { pressed: true, code } => {
                let (w, h) = match size {
                    Some(known) => known,
                    None => (80u16, 24u16),
                };
                self.press(code, Area::new(0, 0, w, h))
            },
            _ => Action::Continue,
        }
    }

    /// Shows the commit `sha` from the first line of `text`, the output of
    /// `git show`.
    pub fn open_show(&mut self, sha: String, text: &str)
        ensures
            final(self)@ == showing(old(self)@, sha@, lines_of(text@)),
            old(self)@.wf() ==> final(self)@.wf(),
    {
        self.mode = Mode::Show { sha, lines: split_lines(text), scroll: 0 };
    }

    /// Goes on after `git show` for the commit `sha`, or fails if that did.
    pub fn after_show(&mut self, sha: String, outcome: ShowOutcome) -> (r: Result<(), SearchError>)
        ensures
            match after_show_of(old(self)@, sha@, outcome) {
                Some(app) => r is Ok && final(self)@ == app,
                None => r == Err::<(), SearchError>(SearchError::ShowFailed) && *final(self)
                    == *old(self),
            },
            old(self)@.wf() ==> final(self)@.wf(),
    {
        match outcome {
            ShowOutcome::NotStarted => Err(SearchError::ShowFailed),
            ShowOutcome::Paged { code } => match code {
                None | Some(0) => Ok(()),
                _ => Err(SearchError::ShowFailed),
            },
            ShowOutcome::Captured { code, text } => match code {
                Some(0) => {
                    self.open_show(sha, text.as_str());
                    Ok(())
                },
                _ => Err(SearchError::ShowFailed),
            },
        }
    }

    /// Cuts the scroll back to what the screen `area` allows.
    pub fn clamp_scroll(&mut self, area: Area)
        requires
            area.wf(),
        ensures
            final(self)@ == clamped(old(self)@, area.height as int),
            old(self)@.wf() ==> final(self)@.wf(),
    {
        match &mut self.mode {
            Mode::Browse => {},
            Mode::Show { lines, scroll, .. } => {
                let max: usize = max_git_show_scroll(lines.len(), area);
                *scroll = lesser(*scroll, max);
            },
        }
    }
}

/// `Q` leaves the browser from wherever it is, and changes nothing.
pub proof fn law_q_quits(app: AppView, height: int)
    ensures
        pressed(app, KeyCode::Char('Q'), height) == (app, ActionView::Quit),
{
}

/// Only a key that is pressed has an effect.
pub proof fn law_other_events_do_nothing(app: AppView, event: Event, size: Option<(u16, u16)>)
    requires
        !(event matches Event::Key { pressed: true, .. }),
    ensures
        handled(app, event, size) == (app, ActionView::Continue),
{
}

/// In the commit list, `t` shows the hits in the other order and changes nothing
/// else; a second `t` brings the first order back. Where one order holds the hits
/// of the other, `t` shows the same hits.
pub proof fn law_toggle_sort(app: AppView, height: int)
    requires
        app.mode is Browse,
    ensures
        ({
            let once = pressed(app, KeyCode::Char('t'), height).0;
            &&& once.sort != app.sort
            &&& once.hits() == (match app.sort {
                CommitSort::Date => app.score_ordered,
                CommitSort::Score => app.date_ordered,
            })
            &&& once == AppView { sort: once.sort, ..app }
            &&& app.date_ordered.to_multiset() == app.score_ordered.to_multiset()
                ==> once.hits().to_multiset() == app.hits().to_multiset()
            &&& pressed(once, KeyCode::Char('t'), height).0 == app
        }),
{
}

/// No event changes the lists of hits; where one order holds the hits of the other,
/// the hits that are shown stay the same but for their order.
pub proof fn law_events_keep_the_hits(app: AppView, event: Event, size: Option<(u16, u16)>)
    ensures
        ({
            let next = handled(app, event, size).0;
            &&& next.repo == app.repo
            &&& next.date_ordered == app.date_ordered
            &&& next.score_ordered == app.score_ordered
            &&& app.date_ordered.to_multiset() == app.score_ordered.to_multiset()
                ==> next.hits().to_multiset() == app.hits().to_multiset()
        }),
{
}

/// `git show` leaves the list as it is, and in the pager it leaves everything.
pub proof fn law_git_show_keeps_the_list(app: AppView, sha: Seq<char>, outcome: ShowOutcome)
    ensures
        after_show_of(app, sha, outcome) matches Some(next) ==> next == (AppView {
            mode: next.mode,
            ..app
        }) && (outcome is Paged ==> next == app),
{
}

/// One down and one up is where one was, and so is one up and one down; the list
/// goes round.
pub proof fn law_up_undoes_down(i: int, len: int)
    requires
        0 <= i < len,
    ensures
        prev_of(next_of(Some(i), len), len) == Some(i),
        next_of(prev_of(Some(i), len), len) == Some(i),
        next_of(Some(i), len) == Some((i + 1) % len),
        prev_of(Some(i), len) == Some((i + len - 1) % len),
{
    if i + 1 < len {
        vstd::arithmetic::div_mod::lemma_small_mod((i + 1) as nat, len as nat);
    } else {
        vstd::arithmetic::div_mod::lemma_mod_self_0(len);
    }
    if i == 0 {
        vstd::arithmetic::div_mod::lemma_small_mod((len - 1) as nat, len as nat);
    } else {
        vstd::arithmetic::div_mod::lemma_small_mod((i - 1) as nat, len as nat);
        vstd::arithmetic::div_mod::lemma_mod_add_multiples_vanish(i - 1, len);
    }
}

/// With hits to show, Enter opens the one that is selected.
pub proof fn law_enter_opens_selected(app: AppView, height: int)
    requires
        app.wf(),
        app.mode is Browse,
        app.hits().len() > 0,
        app.selected is Some,
    ensures
        pressed(app, KeyCode::Enter, height) == (
            app,
            ActionView::OpenShow(app.hits()[app.selected->0].sha),
        ),
{
}

/// Keys leave the list as it is while a commit is shown: order, selection and
/// hits are there when one comes back to it, with `q` or Esc.
pub proof fn law_show_keeps_the_list(app: AppView, code: KeyCode, height: int)
    requires
        app.mode is Show,
    ensures
        ({
            let next = pressed(app, code, height).0;
            &&& next == AppView { mode: next.mode, ..app }
            &&& next.mode is Browse <==> code == KeyCode::Esc || code == KeyCode::Char('q')
        }),
{
}

/// Drawing the list changes nothing where the selection is one of its hits, and
/// after it the selection is one of them or there is none, if there is room for any.
pub proof fn law_drawing_settles_the_selection(app: AppView, area: Area)
    requires
        app.mode is Browse,
    ensures
        app.wf() && app.hits().len() > 0 ==> drawn(app, area) == app,
        drawn(app, area) == (AppView { selected: drawn(app, area).selected, ..app }),
        has_room(list_and_message(body_and_help(area).0).0) ==> (drawn(app, area).selected matches Some(
            i,
        ) ==> i < app.hits().len()),
        drawn(drawn(app, area), area) == drawn(app, area),
{
}

/// Once drawn on a screen, a commit is never scrolled past its last page there,
/// whatever key is pressed.
pub proof fn law_scroll_stays_in_range(app: AppView, code: KeyCode, height: int)
    requires
        app.wf(),
        app.mode is Show,
    ensures
        ({
            let drawn = clamped(app, height);
            let max = max_scroll_of(drawn.mode->lines.len() as int, height);
            &&& 0 <= drawn.mode->scroll <= max
            &&& pressed(drawn, code, height).0.mode matches ModeView::Show { lines, scroll, .. } ==> lines
                == drawn.mode->lines && 0 <= scroll <= max
        }),
{
}

/// Every line of a commit can be scrolled to: some allowed scroll has it on the page.
pub proof fn law_every_line_can_be_seen(line: int, count: int, height: int)
    requires
        0 <= line < count,
    ensures
        exists|scroll: int|
            0 <= scroll <= max_scroll_of(count, height) && #[trigger] on_page(
                line,
                scroll,
                height,
            ),
{
    let max = max_scroll_of(count, height);
    let scroll = least(line, max);
    assert(on_page(line, scroll, height));
}

/// The line is among those that a page shows at this scroll.
pub open spec fn on_page(line: int, scroll: int, height: int) -> bool {
    scroll <= line < scroll + page_of(height)
}

/// A page up undoes a page down that was not cut short.
pub proof fn law_page_up_undoes_page_down(scroll: int, count: int, height: int)
    requires
        0 <= scroll,
        scroll + page_of(height) <= max_scroll_of(count, height),
    ensures
        scrolled(scrolled(scroll, KeyCode::PageDown, count, height), KeyCode::PageUp, count, height)
            == scroll,
{
}

/// In the commit list, in either order: Down and `j` go to the next hit and from the
/// last to the first, Up and `k` to the one before and from the first to the last.
/// Nothing else of the browser changes, and the browser goes on.
pub proof fn law_keys_move_the_selection(
    app: AppView,
    i: int,
    n: int,
    code: KeyCode,
    size: Option<(u16, u16)>,
)
    requires
        app.mode is Browse,
        n == (match app.sort {
            CommitSort::Date => app.date_ordered.len(),
            CommitSort::Score => app.score_ordered.len(),
        }),
        app.selected == Some(i),
        0 <= i < n,
        code == KeyCode::Down || code == KeyCode::Char('j') || code == KeyCode::Up || code
            == KeyCode::Char('k'),
    ensures
        ({
            let down = code == KeyCode::Down || code == KeyCode::Char('j');
            let to = if down {
                (i + 1) % n
            } else {
                (i + n - 1) % n
            };
            let next = handled(app, Event::Key { pressed: true, code }, size);
            &&& next.0 == (AppView { selected: Some(to), ..app })
            &&& next.1 is Continue
            &&& pressed(app, code, height_of(size)) == next
        }),
{
    law_up_undoes_down(i, n);
}

/// From where no hit is selected, a key that moves goes as from the first hit; from
/// past the end, down goes to the first hit and up to the place before; and in a list
/// without hits it changes nothing.
pub proof fn law_keys_move_from_outside(app: AppView, n: int, code: KeyCode, height: int)
    requires
        app.mode is Browse,
        n == (match app.sort {
            CommitSort::Date => app.date_ordered.len(),
            CommitSort::Score => app.score_ordered.len(),
        }),
        code == KeyCode::Down || code == KeyCode::Char('j') || code == KeyCode::Up || code
            == KeyCode::Char('k'),
    ensures
        ({
            let down = code == KeyCode::Down || code == KeyCode::Char('j');
            let next = pressed(app, code, height);
            &&& next.1 is Continue
            &&& next.0 == (AppView { selected: next.0.selected, ..app })
            &&& n == 0 ==> next.0 == app
            &&& n > 0 && app.selected is None ==> next.0.selected == Some(
                if down {
                    if n == 1 {
                        0
                    } else {
                        1
                    }
                } else {
                    n - 1
                },
            )
            &&& n > 0 && app.selected is Some && app.selected->0 >= n ==> next.0.selected == Some(
                if down {
                    0
                } else {
                    app.selected->0 - 1
                },
            )
        }),
{
}

/// In the commit list, Enter asks for the commit that is selected in the order that
/// is shown, if one is; `Q` leaves; and no key does anything else but those that move
/// the selection and `t`.
pub proof fn law_other_keys_in_the_list(app: AppView, code: KeyCode, height: int)
    requires
        app.mode is Browse,
        code != KeyCode::Down && code != KeyCode::Char('j') && code != KeyCode::Up && code
            != KeyCode::Char('k') && code != KeyCode::Char('t'),
    ensures
        ({
            let shown = match app.sort {
                CommitSort::Date => app.date_ordered,
                CommitSort::Score => app.score_ordered,
            };
            let next = pressed(app, code, height);
            &&& next.0 == app
            &&& next.1 is Quit <==> code == KeyCode::Char('Q')
            &&& code == KeyCode::Enter && app.selected is Some && 0 <= app.selected->0
                < shown.len() ==> next.1 == ActionView::OpenShow(shown[app.selected->0].sha)
            &&& code == KeyCode::Enter && !(app.selected is Some && 0 <= app.selected->0
                < shown.len()) ==> next.1 is Continue
            &&& code != KeyCode::Enter && code != KeyCode::Char('Q') ==> next.1 is Continue
        }),
{
}

/// While a commit is shown: up and down go by a line, the page keys by as many lines
/// as the screen shows, and never past the first line or the last page. Esc and `q`
/// go back to the list, `Q` leaves, and no other key does anything. The terminal
/// counts as twenty-four lines high where its size is not known.
pub proof fn law_keys_scroll(app: AppView, code: KeyCode, size: Option<(u16, u16)>)
    requires
        app.mode is Show,
        0 <= app.mode->scroll,
    ensures
        ({
            let height = match size {
                Some((w, h)) => h as int,
                None => 24,
            };
            let page = if height >= 4 {
                height - 3
            } else {
                1
            };
            let count = app.mode->lines.len() as int;
            let most = if count > page {
                count - page
            } else {
                0
            };
            let scroll = app.mode->scroll;
            let to = match code {
                KeyCode::Up | KeyCode::Char('k') => scroll - 1,
                KeyCode::Down | KeyCode::Char('j') => scroll + 1,
                KeyCode::PageUp => scroll - page,
                KeyCode::PageDown => scroll + page,
                _ => scroll,
            };
            let next = handled(app, Event::Key { pressed: true, code }, size);
            let moves = to != scroll;
            &&& next.1 is Quit <==> code == KeyCode::Char('Q')
            &&& !(next.1 is OpenShow)
            &&& code == KeyCode::Esc || code == KeyCode::Char('q') ==> next.0 == (AppView {
                mode: ModeView::Browse,
                ..app
            })
            &&& code != KeyCode::Esc && code != KeyCode::Char('q') && !moves ==> next.0 == app
            &&& moves ==> next.0 == (AppView {
                mode: ModeView::Show {
                    sha: app.mode->sha,
                    lines: app.mode->lines,
                    scroll: if to < 0 {
                        0
                    } else if to > scroll && to > most {
                        most
                    } else {
                        to
                    },
                },
                ..app
            })
        }),
{
    law_page_and_scroll(app.mode->lines.len() as int, height_of(size));
}

/// The width of the terminal does not matter to an event, and one whose size is not
/// known counts as twenty-four lines high.
pub proof fn law_only_the_height_counts(app: AppView, event: Event, w: u16, v: u16, h: u16)
    ensures
        handled(app, event, Some((w, h))) == handled(app, event, Some((v, h))),
        handled(app, event, None) == handled(app, event, Some((w, 24u16))),
{
}

/// Drawing cuts the scroll of a commit back to where its last line is on the page,
/// if it is past that, and changes nothing else.
pub proof fn law_drawing_cuts_the_scroll(app: AppView, area: Area)
    requires
        app.mode is Show,
    ensures
        ({
            let page = if area.height >= 4 {
                area.height - 3
            } else {
                1
            };
            let count = app.mode->lines.len() as int;
            let most = if count > page {
                count - page
            } else {
                0
            };
            &&& drawn(app, area) == clamped(app, area.height as int)
            &&& app.mode->scroll <= most ==> drawn(app, area) == app
            &&& app.mode->scroll > most ==> drawn(app, area) == (AppView {
                mode: ModeView::Show { sha: app.mode->sha, lines: app.mode->lines, scroll: most },
                ..app
            })
        }),
{
}

/// Where the list has a cell inside its border, drawing moves a selection past the
/// end to the last hit and drops one in an empty list; every other selection stays.
pub proof fn law_drawing_moves_the_selection(app: AppView, n: int, area: Area)
    requires
        app.mode is Browse,
        n == (match app.sort {
            CommitSort::Date => app.date_ordered.len(),
            CommitSort::Score => app.score_ordered.len(),
        }),
    ensures
        ({
            let list = list_and_message(body_and_help(area).0).0;
            let room = list.width >= 3 && list.height >= 3;
            let to = drawn(app, area).selected;
            &&& drawn(app, area) == settled(app, area)
            &&& to == settled_in(app.selected, n, list)
            &&& !room ==> to == app.selected
            &&& room && n == 0 ==> to is None
            &&& n > 0 && app.selected is None ==> to is None
            &&& n > 0 && app.selected is Some && app.selected->0 < n ==> to == app.selected
            &&& room && n > 0 && app.selected is Some && app.selected->0 >= n ==> to == Some(n - 1)
        }),
{
}

/// After `git show` the browser goes on just where it ran in the pager and did not
/// exit with an error, or ran without one and exited with success. What it wrote
/// then is shown from its first line; out of the pager the browser is as it was.
pub proof fn law_after_git_show(app: AppView, sha: Seq<char>, outcome: ShowOutcome)
    ensures
        ({
            let next = after_show_of(app, sha, outcome);
            match outcome {
                ShowOutcome::NotStarted => next is None,
                ShowOutcome::Paged { code: None } => next == Some(app),
                ShowOutcome::Paged { code: Some(c) } => (c == 0 ==> next == Some(app)) && (c != 0
                    ==> next is None),
                ShowOutcome::Captured { code: None, .. } => next is None,
                ShowOutcome::Captured { code: Some(c), text } => (next is Some <==> c == 0) && (
                next is Some ==> next->0 == showing(app, sha, lines_of(text@)) && next->0.mode == (
                ModeView::Show { sha, lines: lines_of(text@), scroll: 0 })),
            }
        }),
{
}

/// Git has no pager just where its setting is empty or `cat`, but for white space
/// around it.
pub proof fn law_what_is_no_pager(a: Seq<char>, pager: Seq<char>, b: Seq<char>)
    requires
        forall|i: int| 0 <= i < a.len() ==> white_space(#[trigger] a[i]),
        forall|i: int| 0 <= i < b.len() ==> white_space(#[trigger] b[i]),
        pager.len() > 0 ==> !white_space(pager[0]) && !white_space(pager[pager.len() - 1]),
    ensures
        pages(a + pager + b) <==> pager.len() > 0 && pager != seq!['c', 'a', 't'],
{
    law_trim_takes_white_space_off(a, pager, b);
    reveal_strlit("cat");
    assert("cat"@ =~= seq!['c', 'a', 't']);
}

/// A browser has the fields of its state: the hits of both lists, place by place, and
/// what is selected and shown.
pub proof fn law_browser_says_its_state(app: App, i: int)
    ensures
        app@.repo == app.repo@,
        app@.sort == app.sort,
        app.sort == CommitSort::Date ==> app@.hits() == app@.date_ordered,
        app.sort == CommitSort::Score ==> app@.hits() == app@.score_ordered,
        app@.date_ordered.len() == app.date_ordered@.len(),
        app@.score_ordered.len() == app.score_ordered@.len(),
        0 <= i < app.date_ordered@.len() ==> app@.date_ordered[i].sha
            == app.date_ordered@[i].full_sha@ && app@.date_ordered[i].message
            == app.date_ordered@[i].message@ && app@.date_ordered[i].score
            == app.date_ordered@[i].score,
        0 <= i < app.score_ordered@.len() ==> app@.score_ordered[i].sha
            == app.score_ordered@[i].full_sha@ && app@.score_ordered[i].message
            == app.score_ordered@[i].message@ && app@.score_ordered[i].score
            == app.score_ordered@[i].score,
        app.selected is None <==> app@.selected is None,
        app.selected matches Some(k) ==> app@.selected == Some(k as int),
        app.mode is Browse <==> app@.mode is Browse,
        app.mode matches Mode::Show { sha, lines, scroll } ==> app@.mode->sha == sha@
            && app@.mode->scroll == scroll && app@.mode->lines.len() == lines@.len() && (0 <= i
            < lines@.len() ==> app@.mode->lines[i] == lines@[i]@),
{
}

/// A selection, as an integer, is the place that it is; and an action says the commit
/// that it holds.
pub proof fn law_selection_is_its_place(i: usize, sha: String)
    ensures
        index_view(Some(i)) == Some(i as int),
        index_view(None) is None,
        (Action::OpenShow { sha })@ == ActionView::OpenShow(sha@),
        Action::Quit@ is Quit,
        Action::Continue@ is Continue,
{
}

/// Moving in a list on its own: from no selection as from the first place, round at
/// both ends, from past the end down to the first place and up to the place before,
/// and nowhere in an empty list.
pub proof fn law_moves_in_a_list(selected: Option<int>, len: int)
    requires
        0 <= len,
        selected matches Some(i) ==> 0 <= i,
    ensures
        len == 0 ==> next_of(selected, len) == selected && prev_of(selected, len) == selected,
        next_of(None, len) == (if len == 0 {
            None
        } else {
            next_of(Some(0), len)
        }),
        prev_of(None, len) == (if len == 0 {
            None
        } else {
            prev_of(Some(0), len)
        }),
        len > 0 ==> (selected matches Some(i) ==> i >= len ==> next_of(selected, len) == Some(0int)
            && prev_of(selected, len) == Some(i - 1)),
        len > 0 ==> (selected matches Some(i) ==> i < len - 1 ==> next_of(selected, len) == Some(
            i + 1,
        )),
        len > 0 ==> (selected matches Some(i) ==> i == len - 1 ==> next_of(selected, len) == Some(
            0int,
        )),
        len > 0 ==> (selected matches Some(i) ==> i > 0 ==> prev_of(selected, len) == Some(i - 1)),
        len > 0 ==> prev_of(Some(0), len) == Some(len - 1),
{
}

/// A commit is shown from the top, and the rest of the browser stays as it is.
pub proof fn law_shown_from_the_top(app: AppView, sha: Seq<char>, lines: Seq<Seq<char>>)
    ensures
        showing(app, sha, lines).mode == (ModeView::Show { sha, lines, scroll: 0 }),
        showing(app, sha, lines).repo == app.repo,
        showing(app, sha, lines).date_ordered == app.date_ordered,
        showing(app, sha, lines).score_ordered == app.score_ordered,
        showing(app, sha, lines).sort == app.sort,
        showing(app, sha, lines).selected == app.selected,
{
}

} // verus!
