use vstd::prelude::*;

use crate::chat::{App, AppView, MsgView, Role};
use ratatui::layout::{Constraint, Layout, Rect};
use crate::text::{chars_of, push_char};
use crate::wrap::{lemma_wrapped_lines, short, shortened, strings_view, wrap_text, wrapped};

verus! {

/// How a piece of text is coloured: in the colour of a role, or plain.
#[derive(Clone, Copy, Debug, PartialEq, Eq, Structural)]
pub enum Tone {
    Accent(Role),
    Plain,
}

/// A piece of a screen line.
#[derive(Debug, PartialEq, Eq)]
pub struct Span {
    pub text: String,
    pub tone: Tone,
}

pub struct SpanView {
    pub text: Seq<char>,
    pub tone: Tone,
}

impl View for Span {
    type V = SpanView;

    open spec fn view(&self) -> SpanView {
        SpanView { text: self.text@, tone: self.tone }
    }
}

/// The views of the spans of a line.
pub open spec fn line_view(l: Seq<Span>) -> Seq<SpanView> {
    l.map_values(|s: Span| s@)
}

/// The views of screen lines.
pub open spec fn lines_view(ls: Seq<Vec<Span>>) -> Seq<Seq<SpanView>> {
    ls.map_values(|l: Vec<Span>| line_view(l@))
}

/// The label in front of the first line of a message.
pub open spec fn prefix(role: Role) -> Seq<char> {
    match role {
        Role::User => "› "@,
        Role::Bot => "ghosty "@,
        _ => seq![],
    }
}

/// The tone of a message's text: the agent's replies are plain, the rest
/// takes its role's colour.
pub open spec fn body_tone(role: Role) -> Tone {
    if role == Role::Bot {
        Tone::Plain
    } else {
        Tone::Accent(role)
    }
}

/// `n` spaces.
pub open spec fn spaces(n: nat) -> Seq<char> {
    Seq::new(n, |_i: int| ' ')
}

/// The columns left for the text after a prefix of `p` characters: at
/// least one.
pub open spec fn body_width(width: nat, p: nat) -> nat {
    if width > p {
        (width - p) as nat
    } else {
        1
    }
}

/// The screen lines of one message: its text wrapped to the columns left by
/// its prefix; the first line carries the prefix, the others are indented
/// by as many spaces.
pub open spec fn message_lines(m: MsgView, width: nat) -> Seq<Seq<SpanView>> {
    let p = prefix(m.role);
    let ws = wrapped(m.text, body_width(width, p.len()));
    if ws.len() == 0 {
        seq![seq![]]
    } else {
        Seq::new(
            ws.len(),
            |i: int|
                if i == 0 && p.len() > 0 {
                    seq![
                        SpanView { text: p, tone: Tone::Accent(m.role) },
                        SpanView { text: ws[0], tone: body_tone(m.role) },
                    ]
                } else {
                    seq![SpanView { text: spaces(p.len()) + ws[i], tone: body_tone(m.role) }]
                },
        )
    }
}

/// The screen lines of a conversation, message after message.
pub open spec fn history_lines(ms: Seq<MsgView>, width: nat) -> Seq<Seq<SpanView>>
    decreases ms.len(),
{
    if ms.len() == 0 {
        seq![]
    } else {
        history_lines(ms.drop_last(), width) + message_lines(ms.last(), width)
    }
}

/// The prefix of a role as text.
fn prefix_str(role: Role) -> (r: String)
    ensures
        r@ == prefix(role),
{
    match role {
        Role::User => "› ".to_owned(),
        Role::Bot => "ghosty ".to_owned(),
        _ => String::new(),
    }
}

/// The screen lines of one message.
fn message_lines_of(role: Role, text: &String, width: usize) -> (r: Vec<Vec<Span>>)
    ensures
        lines_view(r@) == message_lines(MsgView { role, text: text@ }, width as nat),
{
    let p = prefix_str(role);
    let pc = chars_of(p.as_str()).len();
    let body_w = if width > pc {
        width - pc
    } else {
        1
    };
    let wrapped_text = wrap_text(text.as_str(), body_w);
    let tone = if role == Role::Bot {
        Tone::Plain
    } else {
        Tone::Accent(role)
    };
    let ghost ws = strings_view(wrapped_text@);
    let mut out: Vec<Vec<Span>> = Vec::new();
    let mut i: usize = 0;
    while i < wrapped_text.len()
        invariant
            i <= wrapped_text@.len(),
            ws == strings_view(wrapped_text@),
            p@ == prefix(role),
            pc == p@.len(),
            tone == body_tone(role),
            lines_view(out@) == message_lines(MsgView { role, text: text@ }, width as nat).take(
                i as int,
            ),
            ws == wrapped(text@, body_width(width as nat, pc as nat)),
        decreases wrapped_text@.len() - i,
    {
        let chunk = &wrapped_text[i];
        let line: Vec<Span> = if i == 0 && pc > 0 {
            let l = vec![
                Span { text: p.clone(), tone: Tone::Accent(role) },
                Span { text: chunk.clone(), tone },
            ];
            assert(line_view(l@) =~= seq![
                SpanView { text: prefix(role), tone: Tone::Accent(role) },
                SpanView { text: ws[0], tone: body_tone(role) },
            ]);
            l
        } else {
            let mut t = String::new();
            let mut k: usize = 0;
            while k < pc
                invariant
                    k <= pc,
                    t@ == spaces(k as nat),
                decreases pc - k,
            {
                push_char(&mut t, ' ');
                assert(t@ =~= spaces((k + 1) as nat));
                k = k + 1;
            }
            t.append(chunk.as_str());
            let l = vec![Span { text: t, tone }];
            assert(line_view(l@) =~= seq![
                SpanView { text: spaces(pc as nat) + ws[i as int], tone: body_tone(role) },
            ]);
            l
        };
        let ghost before = out@;
        out.push(line);
        assert(lines_view(out@) =~= lines_view(before).push(line_view(line@)));
        assert(message_lines(MsgView { role, text: text@ }, width as nat).take(i + 1)
            =~= message_lines(MsgView { role, text: text@ }, width as nat).take(i as int).push(
            line_view(line@),
        ));
        i = i + 1;
    }
    proof {
        lemma_wrapped_lines(text@, body_width(width as nat, pc as nat));
    }
    assert(message_lines(MsgView { role, text: text@ }, width as nat).take(i as int)
        =~= message_lines(MsgView { role, text: text@ }, width as nat));
    out
}

/// The screen lines of the whole conversation at `width` columns.
pub fn build_lines(app: &App, width: usize) -> (r: Vec<Vec<Span>>)
    ensures
        lines_view(r@) == history_lines(app@.messages, width as nat),
{
    let mut out: Vec<Vec<Span>> = Vec::new();
    let mut i: usize = 0;
    let ghost ms = app@.messages;
    assert(ms.take(0) =~= Seq::<MsgView>::empty());
    assert(lines_view(out@) =~= Seq::<Seq<SpanView>>::empty());
    while i < app.messages.len()
        invariant
            i <= app.messages@.len(),
            ms == app@.messages,
            ms.len() == app.messages@.len(),
            lines_view(out@) == history_lines(ms.take(i as int), width as nat),
        decreases app.messages@.len() - i,
    {
        let m = &app.messages[i];
        let mut ml = message_lines_of(m.role, &m.text, width);
        let ghost before = out@;
        let ghost mlv = lines_view(ml@);
        out.append(&mut ml);
        assert(lines_view(out@) =~= lines_view(before) + mlv);
        assert(ms.take(i + 1).drop_last() =~= ms.take(i as int));
        assert(ms.take(i + 1).last() == ms[i as int]);
        assert(ms[i as int] == MsgView { role: m.role, text: m.text@ });
        i = i + 1;
    }
    assert(ms.take(i as int) =~= ms);
    out
}


/// A rectangle of the terminal, in cells.
#[derive(Clone, Copy, Debug, PartialEq, Eq, Structural)]
pub struct Area {
    pub x: u16,
    pub y: u16,
    pub width: u16,
    pub height: u16,
}

/// Everything the chat screen shows, ready to draw.
pub struct Screen {
    /// The box of the history, the status line and the input box.
    pub history_area: Area,
    pub status_area: Area,
    pub input_area: Area,
    /// Title of the history box.
    pub title: String,
    /// The lines of the history box.
    pub lines: Vec<Vec<Span>>,
    /// How many lines of the history are scrolled past at the top.
    pub scroll: u16,
    /// The status line.
    pub status: String,
    /// Where the cursor stands, inside the input box.
    pub cursor_x: u16,
    pub cursor_y: u16,
}

pub open spec fn sat_sub(a: u16, b: u16) -> u16 {
    if a >= b {
        (a - b) as u16
    } else {
        0
    }
}

/// The first history line shown: the last screenful when not scrolled
/// back, `back` lines earlier otherwise, never before the first line.
pub open spec fn scroll_offset(total: u16, visible: u16, back: u16) -> u16 {
    sat_sub(sat_sub(total, visible), back)
}

/// Title of the history box.
pub open spec fn title_text(agent: Seq<char>) -> Seq<char> {
    " ghosty \u{b7} "@ + shortened(agent) + " "@
}

/// The status line while a reply streams, and otherwise.
pub open spec fn status_text(streaming: bool) -> Seq<char> {
    if streaming {
        " \u{25cf} ghosty est\u{e1} respondiendo\u{2026}"@
    } else {
        " \u{25cb} listo \u{b7} Enter env\u{ed}a \u{b7} Esc sale \u{b7} PgUp/PgDn scroll"@
    }
}

/// The column of the cursor: after the typed characters, inside the box's
/// border.
pub open spec fn cursor_column(input: Area, typed: nat) -> int {
    let shown = (typed as u16) as int;
    let room = sat_sub(input.width, 2) as int;
    input.x + 1 + if shown < room {
        shown
    } else {
        room
    }
}

/// The screen can be drawn: the cursor falls on a cell of the terminal.
pub open spec fn can_show(app: AppView, input: Area) -> bool {
    &&& cursor_column(input, app.input.len()) <= u16::MAX
    &&& input.y < u16::MAX
}

/// `s` is what the screen shows of `app` in these three rows.
pub open spec fn shows(s: Screen, app: AppView, history: Area, status: Area, input: Area) -> bool {
    &&& s.history_area == history
    &&& s.status_area == status
    &&& s.input_area == input
    &&& s.title@ == title_text(app.agent)
    &&& lines_view(s.lines@) == history_lines(app.messages, sat_sub(history.width, 2) as nat)
    &&& s.scroll == scroll_offset(s.lines@.len() as u16, sat_sub(history.height, 2), app.scroll_back)
    &&& s.status@ == status_text(app.streaming)
    &&& s.cursor_x == cursor_column(input, app.input.len())
    &&& s.cursor_y == input.y + 1
}

/// What the screen shows of `app` when its history box is `history`, its
/// status line `status` and its input box `input`.
pub fn screen(app: &App, history: Area, status: Area, input: Area) -> (r: Screen)
    requires
        can_show(app@, input),
    ensures
        shows(r, app@, history, status, input),
        r.scroll <= sat_sub(r.lines@.len() as u16, sat_sub(history.height, 2)),
        app@.scroll_back == 0 ==> r.scroll == sat_sub(
            r.lines@.len() as u16,
            sat_sub(history.height, 2),
        ),
{
    let inner_w = history.width.saturating_sub(2) as usize;
    let inner_h = history.height.saturating_sub(2);
    let lines = build_lines(app, inner_w);
    let total = lines.len() as u16;
    let max_scroll = total.saturating_sub(inner_h);
    let scroll = max_scroll.saturating_sub(app.scroll_back);
    let mut title = " ghosty \u{b7} ".to_owned();
    let shortened_agent = short(app.agent.as_str());
    title.append(shortened_agent.as_str());
    title.append(" ");
    let status_line = if app.streaming {
        " \u{25cf} ghosty est\u{e1} respondiendo\u{2026}".to_owned()
    } else {
        " \u{25cb} listo \u{b7} Enter env\u{ed}a \u{b7} Esc sale \u{b7} PgUp/PgDn scroll".to_owned()
    };
    let typed = chars_of(app.input.as_str()).len() as u16;
    let room = input.width.saturating_sub(2);
    let shown = if typed < room {
        typed
    } else {
        room
    };
    let cursor_x = input.x + 1 + shown;
    let cursor_y = input.y + 1;
    Screen {
        history_area: history,
        status_area: status,
        input_area: input,
        title,
        lines,
        scroll,
        status: status_line,
        cursor_x,
        cursor_y,
    }
}

/// The height a row asks for, as ratatui's `Constraint::Min` and
/// `Constraint::Length`.
#[derive(Clone, Copy, Debug, PartialEq, Eq, Structural)]
pub enum Extent {
    Min(u16),
    Length(u16),
}

/// The three rows ratatui's vertical `Layout` makes of `area` for these
/// height requests.
pub uninterp spec fn stacked_rows(area: Area, top: Extent, middle: Extent, bottom: Extent) -> (
    Area,
    Area,
    Area,
);

/// Splits `area` with `Layout::vertical` over three constraints and
/// `Layout::split`. The contract names the rows; where ratatui's solver
/// places them is left unsaid.
#[verifier::external_body]
fn split_rows(area: Area, top: Extent, middle: Extent, bottom: Extent) -> (r: (Area, Area, Area))
    ensures
        r == stacked_rows(area, top, middle, bottom),
{
    let c = |e: Extent| match e {
        Extent::Min(n) => Constraint::Min(n),
        Extent::Length(n) => Constraint::Length(n),
    };
    let rect = Rect { x: area.x, y: area.y, width: area.width, height: area.height };
    let rows = Layout::vertical([c(top), c(middle), c(bottom)]).split(rect);
    let a = |r: Rect| Area { x: r.x, y: r.y, width: r.width, height: r.height };
    (a(rows[0]), a(rows[1]), a(rows[2]))
}

/// The rows of the chat screen: the history takes what is left after a
/// status line and a three-line input box.
pub open spec fn chat_rows(area: Area) -> (Area, Area, Area) {
    stacked_rows(area, Extent::Min(1), Extent::Length(1), Extent::Length(3))
}

/// The chat screen in the terminal area `area`; `None` when it cannot be
/// drawn there (see `can_show`).
pub fn frame_screen(app: &App, area: Area) -> (r: Option<Screen>)
    ensures
        r is Some <==> can_show(app@, chat_rows(area).2),
        r matches Some(s) ==> shows(s, app@, chat_rows(area).0, chat_rows(area).1, chat_rows(area).2),
{
    let (history, status, input) = split_rows(area, Extent::Min(1), Extent::Length(1), Extent::Length(3));
    let typed = chars_of(app.input.as_str()).len() as u16;
    let room = input.width.saturating_sub(2);
    let shown = if typed < room {
        typed
    } else {
        room
    };
    if input.x as u32 + 1 + shown as u32 > 0xFFFF || input.y == 0xFFFF {
        return None;
    }
    Some(screen(app, history, status, input))
}

/// No message vanishes from the history: each gives at least one line.
pub proof fn lemma_history_lines_len(ms: Seq<MsgView>, width: nat)
    ensures
        history_lines(ms, width).len() >= ms.len(),
    decreases ms.len(),
{
    if ms.len() > 0 {
        lemma_history_lines_len(ms.drop_last(), width);
        let m = ms.last();
        lemma_wrapped_lines(m.text, body_width(width, prefix(m.role).len()));
    }
}

/// Every screen line of a message ends with a piece of its text in the
/// message's colour: plain for the agent's replies, the role's colour for
/// the others, on the first line and on every continuation line alike. Only
/// the label in front of the first line may come before it, in the role's
/// colour.
pub proof fn lemma_message_lines_tone(m: MsgView, width: nat)
    ensures
        message_lines(m, width).len() >= 1,
        forall|i: int|
            0 <= i < message_lines(m, width).len() ==> {
                let l = #[trigger] message_lines(m, width)[i];
                &&& 1 <= l.len() <= 2
                &&& l.last().tone == if m.role == Role::Bot {
                    Tone::Plain
                } else {
                    Tone::Accent(m.role)
                }
                &&& l.len() == 2 ==> i == 0 && l[0].tone == Tone::Accent(m.role)
            },
{
    let p = prefix(m.role);
    lemma_wrapped_lines(m.text, body_width(width, p.len()));
}

/// The first line of a message from the user starts with the label "› ",
/// one from the agent with "ghosty ", and the others with no label; every
/// further line is indented by as many spaces as the label is wide.
pub proof fn lemma_message_lines_label(m: MsgView, width: nat)
    ensures
        ({
            let n: nat = if m.role == Role::User {
                2
            } else if m.role == Role::Bot {
                7
            } else {
                0
            };
            let ls = message_lines(m, width);
            &&& m.role == Role::User ==> ls[0][0].text == "› "@
            &&& m.role == Role::Bot ==> ls[0][0].text == "ghosty "@
            &&& forall|i: int|
                1 <= i < ls.len() ==> (#[trigger] ls[i]).len() == 1 && ls[i][0].text.len() >= n
                    && forall|k: int| 0 <= k < n ==> ls[i][0].text[k] == ' '
        }),
{
    reveal_strlit("› ");
    reveal_strlit("ghosty ");
    let p = prefix(m.role);
    lemma_wrapped_lines(m.text, body_width(width, p.len()));
    let ls = message_lines(m, width);
    let ws = wrapped(m.text, body_width(width, p.len()));
    assert forall|i: int| 1 <= i < ls.len() implies (#[trigger] ls[i]).len() == 1
        && ls[i][0].text.len() >= p.len() && forall|k: int| 0 <= k < p.len() ==> ls[i][0].text[k] == ' ' by {
        assert(ls[i][0].text == spaces(p.len()) + ws[i]);
        assert forall|k: int| 0 <= k < p.len() implies ls[i][0].text[k] == ' ' by {
            assert((spaces(p.len()) + ws[i])[k] == spaces(p.len())[k]);
        }
    }
}

} // verus!
