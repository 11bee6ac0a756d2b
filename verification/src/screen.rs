//! What the browser puts on the screen.
use vstd::prelude::*;
use vstd::string::*;

use crate::browser::{
    all_shortenable, drawn, settle_selection, settled, App, AppView, CommitSort, Mode, ModeView,
};
use crate::hits::{hit_views, HitView, SearchHit};
use crate::layout::{
    body_and_help, least, list_and_message, max_scroll_of, page_of, split_columns,
    split_help_line, visible_lines, Area,
};
use crate::score::Score;
use crate::text::{
    decimal, decimal_of, first_line, first_line_of, joined, short_of, short_sha, shortenable,
    text_views,
};

verus! {

/// A hit in the commit list: the short name and the subject of the commit, and the
/// score that stands below.
#[derive(Debug)]
pub struct Row {
    pub head: String,
    pub score: Score,
}

/// The commit list on the screen, with the message of the selected commit.
#[derive(Debug)]
pub struct BrowseScreen {
    pub list: Area,
    pub message: Area,
    pub help: Area,
    pub title: String,
    pub rows: Vec<Row>,
    pub selected: Option<usize>,
    pub message_text: String,
    pub help_text: String,
}

/// A commit on the screen: the lines that fit, and where they stand.
#[derive(Debug)]
pub struct ShowScreen {
    pub body: Area,
    pub help: Area,
    pub title: String,
    pub lines: Vec<String>,
    pub status: String,
}

/// What the browser puts on the screen.
#[derive(Debug)]
pub enum Screen {
    Browse(BrowseScreen),
    Show(ShowScreen),
}

/// The first line of a hit in the list: short name and subject.
pub open spec fn head_of(hit: HitView) -> Seq<char> {
    short_of(hit.sha) + "  "@ + first_line_of(hit.message)
}

/// The title of the commit list.
pub open spec fn list_title(sort: CommitSort) -> Seq<char> {
    match sort {
        CommitSort::Date => " commits (main, newest first) "@,
        CommitSort::Score => " commits (main, best match first) "@,
    }
}

/// The message of the selected hit, the first where none is selected; empty where
/// there is no such hit.
pub open spec fn message_of(app: AppView) -> Seq<char> {
    let i = match app.selected {
        Some(i) => i,
        None => 0,
    };
    if 0 <= i < app.hits().len() {
        app.hits()[i].message
    } else {
        Seq::empty()
    }
}

/// The help line below the commit list.
pub open spec fn list_help(repo: Seq<char>) -> Seq<char> {
    " repo: "@ + repo + "   ↑/↓/j/k: move   Enter: git show   Q: quit "@
}

impl BrowseScreen {
    /// The screen shows the commit list of `app`.
    pub open spec fn shows(self, app: AppView, area: Area) -> bool {
        let (body, help) = body_and_help(area);
        &&& (self.list, self.message) == list_and_message(body)
        &&& self.help == help
        &&& self.title@ == list_title(app.sort)
        &&& self.rows@.len() == app.hits().len()
        &&& forall|i: int|
            0 <= i < self.rows@.len() ==> (#[trigger] self.rows@[i]).head@ == head_of(app.hits()[i])
                && self.rows@[i].score == app.hits()[i].score
        &&& app.selected == (match self.selected {
            Some(i) => Some(i as int),
            None => None,
        })
        &&& self.message_text@ == message_of(app)
        &&& self.help_text@ == list_help(app.repo)
    }
}

/// The lines of a commit that the screen shows: those from `scroll` on, as far as
/// they fit and as there are any.
pub open spec fn window(lines: Seq<Seq<char>>, scroll: int, height: int) -> Seq<Seq<char>> {
    lines.subrange(scroll, least(scroll + page_of(height), lines.len() as int))
}

/// The line below a commit: which of its lines are shown, and the keys.
pub open spec fn show_status(count: nat, scroll: int, height: int) -> Seq<char> {
    let first = if count == 0 {
        0
    } else {
        scroll + 1
    };
    let last = if count == 0 {
        0
    } else {
        least(scroll + page_of(height), count as int)
    };
    " lines "@ + decimal_of(first as nat) + "–"@ + decimal_of(last as nat) + " of "@ + decimal_of(
        count,
    ) + "   ↑/↓/j/k PgUp/PgDn: scroll   q/Esc: back   Q: quit "@
}

impl ShowScreen {
    /// The screen shows `lines` of the commit `sha`, scrolled by `scroll`.
    pub open spec fn shows(
        self,
        sha: Seq<char>,
        lines: Seq<Seq<char>>,
        scroll: int,
        area: Area,
    ) -> bool {
        &&& (self.body, self.help) == body_and_help(area)
        &&& self.title@ == " git show "@ + sha + " "@
        &&& text_views(self.lines@) == window(lines, scroll, area.height as int)
        &&& self.status@ == show_status(lines.len(), scroll, area.height as int)
    }
}

impl Screen {
    /// The screen shows `app`.
    pub open spec fn shows(self, app: AppView, area: Area) -> bool {
        match (self, app.mode) {
            (Screen::Browse(screen), ModeView::Browse) => screen.shows(app, area),
            (Screen::Show(screen), ModeView::Show { sha, lines, scroll }) => screen.shows(
                sha,
                lines,
                scroll,
                area,
            ),
            _ => false,
        }
    }
}

/// The line of the commit list that gives a score, from the score as text.
pub fn score_line(score_text: &str) -> (r: String)
    ensures
        r@ == "score "@ + score_text@,
{
    joined("score ", score_text)
}

/// The first line of a hit in the list: short name and subject.
pub fn row_head(hit: &SearchHit) -> (r: String)
    requires
        shortenable(hit@.sha),
    ensures
        r@ == head_of(hit@),
{
    joined(short_sha(hit.full_sha.as_str()), "  ").concat(first_line(hit.message.as_str()))
}

impl App {
    /// Brings the selection to one that the list can show, and gives the commit list
    /// for the screen `area`.
    pub fn draw_browse(&mut self, area: Area) -> (r: BrowseScreen)
        requires
            all_shortenable(old(self)@.hits()),
            area.wf(),
        ensures
            final(self)@ == settled(old(self)@, area),
            old(self)@.wf() ==> final(self)@.wf(),
            r.shows(final(self)@, area),
    {
        let (body, help) = split_help_line(area);
        let (list, message) = split_columns(body);
        let len: usize = self.hits().len();
        settle_selection(&mut self.selected, len, list);
        let hits: &Vec<SearchHit> = self.hits();
        let title: String = match self.sort {
            CommitSort::Date => " commits (main, newest first) ".to_owned(),
            CommitSort::Score => " commits (main, best match first) ".to_owned(),
        };
        let mut rows: Vec<Row> = Vec::new();
        let mut i: usize = 0;
        while i < hits.len()
            invariant
                i <= hits@.len(),
                all_shortenable(self@.hits()),
                hit_views(hits@) == self@.hits(),
                hits@.len() == self@.hits().len(),
                rows@.len() == i,
                forall|k: int|
                    0 <= k < i ==> (#[trigger] rows@[k]).head@ == head_of(self@.hits()[k])
                        && rows@[k].score == self@.hits()[k].score,
            decreases hits@.len() - i,
        {
            assert(self@.hits()[i as int] == hits@[i as int]@);
            let row: Row = Row { head: row_head(&hits[i]), score: hits[i].score };
            rows.push(row);
            i = i + 1;
        }
        let s: usize = match self.selected {
            Some(k) => k,
            None => 0,
        };
        let message_text: String = if s < hits.len() {
            assert(self@.hits()[s as int] == hits@[s as int]@);
            hits[s].message.clone()
        } else {
            String::new()
        };
        let help_text: String = joined(" repo: ", self.repo.as_str()).concat(
            "   ↑/↓/j/k: move   Enter: git show   Q: quit ",
        );
        BrowseScreen {
            list,
            message,
            help,
            title,
            rows,
            selected: self.selected,
            message_text,
            help_text,
        }
    }

    /// Cuts the scroll back or brings the selection in, to what the screen `area`
    /// can show, and gives what is to be drawn there.
    pub fn draw(&mut self, area: Area) -> (r: Screen)
        requires
            old(self)@.mode is Browse ==> all_shortenable(old(self)@.hits()),
            area.wf(),
        ensures
            final(self)@ == drawn(old(self)@, area),
            old(self)@.wf() ==> final(self)@.wf(),
            r.shows(final(self)@, area),
    {
        self.clamp_scroll(area);
        if let Mode::Show { sha, lines, scroll } = &self.mode {
            return Screen::Show(draw_show(sha.as_str(), lines, *scroll, area));
        }
        Screen::Browse(self.draw_browse(area))
    }
}

/// A commit, for the screen `area`; where it is scrolled too far for it, the last
/// page is shown.
pub fn draw_show(sha: &str, lines: &Vec<String>, scroll: usize, area: Area) -> (r: ShowScreen)
    requires
        area.wf(),
    ensures
        r.shows(
            sha@,
            text_views(lines@),
            least(scroll as int, max_scroll_of(lines@.len() as int, area.height as int)),
            area,
        ),
{
    let (body, help) = split_help_line(area);
    let visible: usize = visible_lines(body.height);
    let max_scroll: usize = lines.len().saturating_sub(visible);
    let scroll: usize = if scroll <= max_scroll {
        scroll
    } else {
        max_scroll
    };
    let end: usize = if visible <= lines.len() - scroll {
        scroll + visible
    } else {
        lines.len()
    };
    let mut shown: Vec<String> = Vec::new();
    let mut i: usize = scroll;
    while i < end
        invariant
            scroll <= i <= end <= lines@.len(),
            text_views(shown@) == text_views(lines@).subrange(scroll as int, i as int),
        decreases end - i,
    {
        let ghost had = text_views(shown@);
        let line: String = lines[i].clone();
        shown.push(line);
        i = i + 1;
        assert(text_views(shown@) =~= had.push(line@));
        assert(text_views(lines@)[i - 1] == line@);
        assert(text_views(shown@) =~= text_views(lines@).subrange(scroll as int, i as int));
    }
    let count: usize = lines.len();
    let first: usize = if count == 0 {
        0
    } else {
        scroll + 1
    };
    let last: usize = if count == 0 {
        0
    } else {
        end
    };
    let title: String = joined(" git show ", sha).concat(" ");
    let status: String = joined(" lines ", decimal(first).as_str()).concat("–").concat(
        decimal(last).as_str(),
    ).concat(" of ").concat(decimal(count).as_str()).concat(
        "   ↑/↓/j/k PgUp/PgDn: scroll   q/Esc: back   Q: quit ",
    );
    ShowScreen { body, help, title, lines: shown, status }
}

/// What the commit list shows: a row for each hit in the order that is chosen, which
/// the title names. A row has the short name and the subject of its commit, with two
/// spaces between them, and the score. Beside the rows stands the message of the
/// selected hit, of the first where none is selected, and below them a line that
/// names the repository and the keys.
pub proof fn law_list_on_the_screen(screen: BrowseScreen, app: AppView, area: Area, i: int)
    requires
        screen.shows(app, area),
    ensures
        ({
            let shown = match app.sort {
                CommitSort::Date => app.date_ordered,
                CommitSort::Score => app.score_ordered,
            };
            let head = screen.rows@[i].head@;
            let short = short_of(shown[i].sha);
            let at = short.len() as int;
            let place = match screen.selected {
                Some(k) => k as int,
                None => 0,
            };
            let n = app.repo.len() as int;
            &&& screen.rows@.len() == shown.len()
            &&& 0 <= i < shown.len() ==> screen.rows@[i].score.bits == shown[i].score.bits
                && head.take(at) == short && head[at] == ' ' && head[at + 1] == ' ' && head.skip(
                at + 2,
            ) == first_line_of(shown[i].message)
            &&& screen.selected is None <==> app.selected is None
            &&& screen.selected is Some ==> app.selected == Some(place)
            &&& place < shown.len() ==> screen.message_text@ == shown[place].message
            &&& place >= shown.len() ==> screen.message_text@.len() == 0
            &&& screen.title@ == (if app.sort == CommitSort::Date {
                " commits (main, newest first) "@
            } else {
                " commits (main, best match first) "@
            })
            &&& screen.help_text@.take(7) == seq![' ', 'r', 'e', 'p', 'o', ':', ' ']
            &&& screen.help_text@.subrange(7, n + 7) == app.repo
            &&& screen.help_text@.skip(n + 7)
                == "   ↑/↓/j/k: move   Enter: git show   Q: quit "@
            &&& screen.help == body_and_help(area).1
            &&& (screen.list, screen.message) == list_and_message(body_and_help(area).0)
        }),
{
    reveal_strlit(" repo: ");
    let n = app.repo.len() as int;
    assert(screen.help_text@.take(7) =~= seq![' ', 'r', 'e', 'p', 'o', ':', ' ']);
    assert(screen.help_text@.subrange(7, n + 7) =~= app.repo);
    assert(screen.help_text@.skip(n + 7)
        =~= "   ↑/↓/j/k: move   Enter: git show   Q: quit "@);
    if 0 <= i < app.hits().len() {
        law_row_head_parts(app.hits()[i]);
        assert(screen.rows@[i].head@ == head_of(app.hits()[i]));
    }
}

/// What is shown of a commit that is not scrolled too far: its lines from the scroll
/// on, as many as the screen has room for or as there are left. The title names the
/// commit, and the line below counts the lines that are shown from one on.
pub proof fn law_commit_on_the_screen(
    screen: ShowScreen,
    sha: Seq<char>,
    lines: Seq<Seq<char>>,
    scroll: int,
    area: Area,
    i: int,
)
    requires
        screen.shows(sha, lines, scroll, area),
        0 <= scroll <= lines.len(),
        scroll == 0 || scroll < lines.len(),
    ensures
        ({
            let page = if area.height >= 4 {
                area.height - 3
            } else {
                1
            };
            let count = lines.len() as int;
            let shown = screen.lines@.len() as int;
            let first: nat = if count == 0 {
                0
            } else {
                (scroll + 1) as nat
            };
            &&& shown == page || shown < page && shown == count - scroll
            &&& shown <= count - scroll
            &&& 0 <= i < shown ==> screen.lines@[i]@ == lines[scroll + i]
            &&& screen.title@ == " git show "@ + sha + " "@
            &&& screen.status@ == " lines "@ + decimal_of(first) + "–"@ + decimal_of(
                (scroll + shown) as nat,
            ) + " of "@ + decimal_of(count as nat)
                + "   ↑/↓/j/k PgUp/PgDn: scroll   q/Esc: back   Q: quit "@
            &&& (screen.body, screen.help) == body_and_help(area)
        }),
{
    let shown = text_views(screen.lines@);
    assert(shown.len() == screen.lines@.len());
    let end = least(scroll + page_of(area.height as int), lines.len() as int);
    assert(shown == lines.subrange(scroll, end));
    if 0 <= i < shown.len() {
        assert(shown[i] == screen.lines@[i]@);
        assert(shown[i] == lines[scroll + i]);
    }
}

/// The screen shows the list while the browser does, and the commit that it shows
/// otherwise.
pub proof fn law_screen_shows_the_mode(screen: Screen, app: AppView, area: Area)
    requires
        screen.shows(app, area),
    ensures
        screen is Browse <==> app.mode is Browse,
        screen matches Screen::Browse(list) ==> list.shows(app, area),
        screen matches Screen::Show(commit) ==> commit.shows(
            app.mode->sha,
            app.mode->lines,
            app.mode->scroll,
            area,
        ),
{
}

/// The first line of a row: the short name and the subject, with two spaces between.
pub proof fn law_row_head_parts(hit: HitView)
    ensures
        ({
            let head = head_of(hit);
            let at = short_of(hit.sha).len() as int;
            &&& head.len() == at + 2 + first_line_of(hit.message).len()
            &&& head.take(at) == short_of(hit.sha)
            &&& head[at] == ' ' && head[at + 1] == ' '
            &&& head.skip(at + 2) == first_line_of(hit.message)
        }),
{
    reveal_strlit("  ");
    let head = head_of(hit);
    let at = short_of(hit.sha).len() as int;
    assert(head.take(at) =~= short_of(hit.sha));
    assert(head.skip(at + 2) =~= first_line_of(hit.message));
}

} // verus!
