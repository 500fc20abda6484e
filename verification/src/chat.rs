use vstd::prelude::*;

use crate::sse::{Frame, FrameView};
use crate::text::{pop_char, push_char, trim, trimmed};

verus! {

/// Who a line of the conversation comes from.
#[derive(Clone, Copy, Debug, PartialEq, Eq, Structural)]
pub enum Role {
    User,
    Bot,
    Error,
    System,
}

/// One message of the conversation.
pub struct Msg {
    pub role: Role,
    pub text: String,
}

pub struct MsgView {
    pub role: Role,
    pub text: Seq<char>,
}

impl View for Msg {
    type V = MsgView;

    open spec fn view(&self) -> MsgView {
        MsgView { role: self.role, text: self.text@ }
    }
}

/// The views of a list of messages.
pub open spec fn msgs_view(ms: Seq<Msg>) -> Seq<MsgView> {
    ms.map_values(|m: Msg| m@)
}

/// The state of the chat screen: the conversation, the input box, whether
/// a reply is streaming in, and how far the history is scrolled back.
pub struct App {
    pub agent: String,
    pub session: String,
    pub messages: Vec<Msg>,
    pub input: String,
    pub streaming: bool,
    pub scroll_back: u16,
}

pub struct AppView {
    pub agent: Seq<char>,
    pub session: Seq<char>,
    pub messages: Seq<MsgView>,
    pub input: Seq<char>,
    pub streaming: bool,
    pub scroll_back: u16,
}

impl View for App {
    type V = AppView;

    open spec fn view(&self) -> AppView {
        AppView {
            agent: self.agent@,
            session: self.session@,
            messages: msgs_view(self.messages@),
            input: self.input@,
            streaming: self.streaming,
            scroll_back: self.scroll_back,
        }
    }
}

/// The system line that opens the conversation.
pub open spec fn welcome_text(agent: Seq<char>, session: Seq<char>) -> Seq<char> {
    "Conectado a "@ + agent + " \u{b7} sesi\u{f3}n "@ + session
        + ". Escribe y Enter para hablar. Esc para salir."@
}

/// Index of the last reply of the agent.
pub open spec fn last_bot_index(ms: Seq<MsgView>) -> Option<int>
    decreases ms.len(),
{
    if ms.len() == 0 {
        None
    } else if ms.last().role == Role::Bot {
        Some(ms.len() - 1)
    } else {
        last_bot_index(ms.drop_last())
    }
}

/// The conversation once the user sent `text`: the user's line and an empty
/// reply that tokens will fill.
pub open spec fn after_send(ms: Seq<MsgView>, text: Seq<char>) -> Seq<MsgView> {
    ms.push(MsgView { role: Role::User, text }).push(MsgView { role: Role::Bot, text: seq![] })
}

/// A token joins the last reply of the agent.
pub open spec fn after_token(ms: Seq<MsgView>, s: Seq<char>) -> Seq<MsgView> {
    match last_bot_index(ms) {
        Some(j) => ms.update(j, MsgView { role: Role::Bot, text: ms[j].text + s }),
        None => ms,
    }
}

/// An error ends the turn: a reply still empty is dropped and the error
/// shown.
pub open spec fn after_error(ms: Seq<MsgView>, e: Seq<char>) -> Seq<MsgView> {
    let kept = if ms.len() > 0 && ms.last().role == Role::Bot && ms.last().text.len() == 0 {
        ms.drop_last()
    } else {
        ms
    };
    kept.push(MsgView { role: Role::Error, text: "\u{26a0} "@ + e })
}

/// The state once a frame of the reply arrived.
pub open spec fn frame_step(s: AppView, f: FrameView) -> AppView {
    match f {
        FrameView::Token(t) => AppView { messages: after_token(s.messages, t), ..s },
        FrameView::Error(e) => AppView { messages: after_error(s.messages, e), streaming: false, ..s },
        FrameView::Done => AppView { streaming: false, ..s },
    }
}

proof fn lemma_last_bot_index(ms: Seq<MsgView>)
    ensures
        last_bot_index(ms) matches Some(j) ==> 0 <= j < ms.len() && ms[j].role == Role::Bot
            && forall|k: int| j < k < ms.len() ==> ms[k].role != Role::Bot,
        last_bot_index(ms) is None ==> forall|k: int| 0 <= k < ms.len() ==> ms[k].role != Role::Bot,
    decreases ms.len(),
{
    if ms.len() > 0 && ms.last().role != Role::Bot {
        lemma_last_bot_index(ms.drop_last());
        let d = ms.drop_last();
        assert forall|k: int| 0 <= k < d.len() implies d[k] == ms[k] by {}
    }
}

impl App {
    /// A fresh chat with `agent` in `session`, opened by a system line.
    pub fn new(agent: String, session: String) -> (r: App)
        ensures
            r@.agent == agent@,
            r@.session == session@,
            r@.messages == seq![MsgView { role: Role::System, text: welcome_text(agent@, session@) }],
            r@.input.len() == 0,
            !r@.streaming,
            r@.scroll_back == 0,
    {
        let mut text = "Conectado a ".to_owned();
        text.append(agent.as_str());
        text.append(" \u{b7} sesi\u{f3}n ");
        text.append(session.as_str());
        text.append(". Escribe y Enter para hablar. Esc para salir.");
        let mut messages: Vec<Msg> = Vec::new();
        messages.push(Msg { role: Role::System, text });
        let r = App { agent, session, messages, input: String::new(), streaming: false, scroll_back: 0 };
        assert(r@.messages =~= seq![MsgView { role: Role::System, text: welcome_text(agent@, session@) }]);
        r
    }

    /// The user sent `text`: it joins the conversation with an empty reply,
    /// the reply starts streaming and the history scrolls to the bottom.
    pub fn send(&mut self, text: String)
        ensures
            final(self)@ == (AppView {
                messages: after_send(old(self)@.messages, text@),
                streaming: true,
                scroll_back: 0,
                ..old(self)@
            }),
    {
        let ghost before = self.messages@;
        self.messages.push(Msg { role: Role::User, text });
        self.messages.push(Msg { role: Role::Bot, text: String::new() });
        self.streaming = true;
        self.scroll_back = 0;
        assert(msgs_view(self.messages@) =~= after_send(msgs_view(before), text@));
    }

    /// The reply is over.
    pub fn finish(&mut self)
        ensures
            final(self)@ == (AppView { streaming: false, ..old(self)@ }),
    {
        self.streaming = false;
    }

    /// Index of the last reply of the agent, if any.
    pub fn last_bot(&self) -> (r: Option<usize>)
        ensures
            r matches Some(j) ==> last_bot_index(self@.messages) == Some(j as int),
            r matches Some(j) ==> j < self@.messages.len(),
            r is None ==> last_bot_index(self@.messages) is None,
    {
        proof {
            lemma_last_bot_index(self@.messages);
        }
        let mut i = self.messages.len();
        assert(self@.messages.take(i as int) =~= self@.messages);
        while i > 0
            invariant
                i <= self.messages@.len(),
                last_bot_index(self@.messages) == last_bot_index(self@.messages.take(i as int)),
            decreases i,
        {
            let ghost ms = self@.messages.take(i as int);
            assert(ms.last() == self@.messages[i - 1]);
            if self.messages[i - 1].role == Role::Bot {
                return Some(i - 1);
            }
            assert(ms.drop_last() =~= self@.messages.take(i - 1));
            i = i - 1;
        }
        None
    }

    /// A frame of the reply arrived: a token joins the last reply, an error
    /// replaces a still empty reply and ends the turn, `Done` ends the turn.
    pub fn on_frame(&mut self, frame: Frame)
        ensures
            final(self)@ == frame_step(old(self)@, frame@),
            crate::sse::is_terminal(frame@) ==> !final(self)@.streaming,
            frame@ is Token ==> final(self)@.messages.len() == old(self)@.messages.len(),
            frame@ is Token ==> final(self)@.streaming == old(self)@.streaming,
    {
        let ghost before = self.messages@;
        assert(self@.messages.take(self.messages@.len() as int) =~= self@.messages);
        match frame {
            Frame::Token(s) => {
                match self.last_bot() {
                    Some(j) => {
                        let mut t = self.messages[j].text.clone();
                        t.append(s.as_str());
                        self.messages.set(j, Msg { role: Role::Bot, text: t });
                        assert(msgs_view(self.messages@) =~= after_token(msgs_view(before), s@));
                    },
                    None => {},
                }
            },
            Frame::Error(e) => {
                let n = self.messages.len();
                if n > 0 && self.messages[n - 1].role == Role::Bot && self.messages[n - 1].text.as_str().is_empty() {
                    self.messages.pop();
                }
                let ghost kept = self.messages@;
                let mut t = "\u{26a0} ".to_owned();
                t.append(e.as_str());
                self.messages.push(Msg { role: Role::Error, text: t });
                assert(msgs_view(self.messages@) =~= after_error(msgs_view(before), e@));
                self.finish();
            },
            Frame::Done => {
                self.finish();
            },
        }
    }
}


/// The key, as the terminal reports it.
#[derive(Clone, Copy, Debug, PartialEq, Eq, Structural)]
pub enum KeyCode {
    Esc,
    Enter,
    Backspace,
    PageUp,
    PageDown,
    Char(char),
    Other,
}

/// The modifier keys held with a key.
#[derive(Clone, Copy, Debug, PartialEq, Eq, Structural)]
pub struct Modifiers {
    pub shift: bool,
    pub control: bool,
    pub alt: bool,
    pub super_key: bool,
    pub hyper: bool,
    pub meta: bool,
}

/// Whether the key went down, repeats or went up.
#[derive(Clone, Copy, Debug, PartialEq, Eq, Structural)]
pub enum KeyKind {
    Press,
    Repeat,
    Release,
}

#[derive(Clone, Copy, Debug, PartialEq, Eq, Structural)]
pub struct Key {
    pub code: KeyCode,
    pub modifiers: Modifiers,
    pub kind: KeyKind,
}

/// What the terminal delivered: a key, anything else (a resize, the mouse),
/// or the end of its event stream.
#[derive(Clone, Copy, Debug, PartialEq, Eq, Structural)]
pub enum TermEvent {
    Key(Key),
    Other,
    Closed,
}

/// What the loop around the chat does next.
#[derive(Debug, PartialEq, Eq)]
pub enum LoopAction {
    Continue,
    Quit,
    /// Start streaming the reply to this message.
    Send(String),
}

pub enum ActionView {
    Continue,
    Quit,
    Send(Seq<char>),
}

impl View for LoopAction {
    type V = ActionView;

    open spec fn view(&self) -> ActionView {
        match self {
            LoopAction::Continue => ActionView::Continue,
            LoopAction::Quit => ActionView::Quit,
            LoopAction::Send(s) => ActionView::Send(s@),
        }
    }
}

pub open spec fn only_control(m: Modifiers) -> bool {
    m == Modifiers { shift: false, control: true, alt: false, super_key: false, hyper: false, meta: false }
}

/// No modifier, or shift alone: the key types its character.
pub open spec fn types_char(m: Modifiers) -> bool {
    &&& !m.control
    &&& !m.alt
    &&& !m.super_key
    &&& !m.hyper
    &&& !m.meta
}

/// The scroll position after Page Up: five lines further back, saturating.
pub open spec fn scroll_up(b: u16) -> u16 {
    if b + 5 > u16::MAX {
        u16::MAX
    } else {
        (b + 5) as u16
    }
}

/// The scroll position after Page Down: five lines nearer the end, down to 0.
pub open spec fn scroll_down(b: u16) -> u16 {
    if b >= 5 {
        (b - 5) as u16
    } else {
        0
    }
}

/// A key press: Esc and Ctrl+C quit; Enter sends the trimmed input unless it
/// is empty or a reply is streaming; Backspace deletes the last character;
/// Page Up and Page Down scroll the history; a character without modifiers
/// other than shift is typed; any other key does nothing.
pub open spec fn key_step(s: AppView, k: Key) -> (AppView, ActionView) {
    if k.code == KeyCode::Esc {
        (s, ActionView::Quit)
    } else if k.code == KeyCode::Char('c') && only_control(k.modifiers) {
        (s, ActionView::Quit)
    } else if k.code == KeyCode::Enter {
        let t = trim(s.input);
        if t.len() > 0 && !s.streaming {
            (
                AppView {
                    input: seq![],
                    messages: after_send(s.messages, t),
                    streaming: true,
                    scroll_back: 0,
                    ..s
                },
                ActionView::Send(t),
            )
        } else {
            (s, ActionView::Continue)
        }
    } else if k.code == KeyCode::Backspace {
        (
            AppView {
                input: if s.input.len() > 0 {
                    s.input.drop_last()
                } else {
                    s.input
                },
                ..s
            },
            ActionView::Continue,
        )
    } else if k.code == KeyCode::PageUp {
        (AppView { scroll_back: scroll_up(s.scroll_back), ..s }, ActionView::Continue)
    } else if k.code == KeyCode::PageDown {
        (AppView { scroll_back: scroll_down(s.scroll_back), ..s }, ActionView::Continue)
    } else {
        match k.code {
            KeyCode::Char(c) => if types_char(k.modifiers) {
                (AppView { input: s.input.push(c), ..s }, ActionView::Continue)
            } else {
                (s, ActionView::Continue)
            },
            _ => (s, ActionView::Continue),
        }
    }
}

/// What one terminal event does: only key presses act; the end of the
/// event stream quits.
pub open spec fn event_step(s: AppView, ev: TermEvent) -> (AppView, ActionView) {
    match ev {
        TermEvent::Key(k) => if k.kind == KeyKind::Press {
            key_step(s, k)
        } else {
            (s, ActionView::Continue)
        },
        TermEvent::Other => (s, ActionView::Continue),
        TermEvent::Closed => (s, ActionView::Quit),
    }
}

impl App {
    /// Reacts to one terminal event.
    pub fn handle_event(&mut self, ev: TermEvent) -> (r: LoopAction)
        ensures
            (final(self)@, r@) == event_step(old(self)@, ev),
            r is Send ==> !old(self)@.streaming && final(self)@.streaming && final(self)@.input.len() == 0,
    {
        match ev {
            TermEvent::Key(k) => {
                if k.kind == KeyKind::Press {
                    self.handle_key(k)
                } else {
                    LoopAction::Continue
                }
            },
            TermEvent::Other => LoopAction::Continue,
            TermEvent::Closed => LoopAction::Quit,
        }
    }

    /// Reacts to a key press.
    pub fn handle_key(&mut self, k: Key) -> (r: LoopAction)
        ensures
            (final(self)@, r@) == key_step(old(self)@, k),
    {
        let m = k.modifiers;
        let ctrl_only = m.control && !m.shift && !m.alt && !m.super_key && !m.hyper && !m.meta;
        match k.code {
            KeyCode::Esc => LoopAction::Quit,
            KeyCode::Char('c') if ctrl_only => LoopAction::Quit,
            KeyCode::Enter => {
                let text = trimmed(self.input.as_str());
                if !text.as_str().is_empty() && !self.streaming {
                    self.input = String::new();
                    let sent = text.clone();
                    self.send(text);
                    LoopAction::Send(sent)
                } else {
                    LoopAction::Continue
                }
            },
            KeyCode::Backspace => {
                let _ = pop_char(&mut self.input);
                LoopAction::Continue
            },
            KeyCode::PageUp => {
                self.scroll_back = self.scroll_back.saturating_add(5);
                LoopAction::Continue
            },
            KeyCode::PageDown => {
                self.scroll_back = self.scroll_back.saturating_sub(5);
                LoopAction::Continue
            },
            KeyCode::Char(c) => {
                if !m.control && !m.alt && !m.super_key && !m.hyper && !m.meta {
                    push_char(&mut self.input, c);
                }
                LoopAction::Continue
            },
            KeyCode::Other => LoopAction::Continue,
        }
    }
}

/// Page Up scrolls the history five lines further back, up to the largest
/// offset, and Page Down five lines nearer the end, down to 0, whether or
/// not a reply is streaming; nothing else changes and the loop goes on.
pub proof fn lemma_page_keys_scroll(s: AppView, k: Key)
    requires
        k.code == KeyCode::PageUp || k.code == KeyCode::PageDown,
    ensures
        key_step(s, k).1 is Continue,
        key_step(s, k).0.agent == s.agent,
        key_step(s, k).0.session == s.session,
        key_step(s, k).0.messages == s.messages,
        key_step(s, k).0.input == s.input,
        key_step(s, k).0.streaming == s.streaming,
        k.code == KeyCode::PageUp && s.scroll_back + 5 <= 65535 ==> key_step(s, k).0.scroll_back
            == s.scroll_back + 5,
        k.code == KeyCode::PageUp && s.scroll_back + 5 > 65535 ==> key_step(s, k).0.scroll_back
            == 65535,
        k.code == KeyCode::PageDown && s.scroll_back >= 5 ==> key_step(s, k).0.scroll_back
            == s.scroll_back - 5,
        k.code == KeyCode::PageDown && s.scroll_back < 5 ==> key_step(s, k).0.scroll_back == 0,
{
}

/// Typing and deleting touch only the input box: a character pressed with
/// no modifier but shift is appended to it, Backspace removes its last
/// character (nothing when it is empty), and the loop goes on.
pub proof fn lemma_editing_keys(s: AppView, k: Key, c: char)
    ensures
        k.code == KeyCode::Char(c) && !k.modifiers.control && !k.modifiers.alt
            && !k.modifiers.super_key && !k.modifiers.hyper && !k.modifiers.meta ==> key_step(s, k)
            == (AppView { input: s.input.push(c), ..s }, ActionView::Continue),
        k.code == KeyCode::Backspace && s.input.len() > 0 ==> key_step(s, k).0.input
            == s.input.take(s.input.len() - 1),
        k.code == KeyCode::Backspace && s.input.len() == 0 ==> key_step(s, k).0 == s,
        k.code == KeyCode::Backspace ==> key_step(s, k).1 is Continue && key_step(s, k).0.messages
            == s.messages && key_step(s, k).0.streaming == s.streaming && key_step(s, k).0.scroll_back
            == s.scroll_back,
{
}

/// Esc always quits and changes nothing; Enter while a reply streams, or
/// with nothing but whitespace typed, changes nothing and sends nothing.
pub proof fn lemma_quit_and_idle_enter(s: AppView, k: Key)
    ensures
        k.code == KeyCode::Esc ==> key_step(s, k) == (s, ActionView::Quit),
        k.code == KeyCode::Enter && s.streaming ==> key_step(s, k) == (s, ActionView::Continue),
        k.code == KeyCode::Enter && trim(s.input).len() == 0 ==> key_step(s, k) == (
            s,
            ActionView::Continue,
        ),
{
}

/// Enter with text typed and no reply streaming sends that text without
/// its surrounding whitespace, shows it as the user's line followed by an
/// empty reply of the agent, empties the input, marks the reply as streaming
/// and scrolls back to the end.
pub proof fn lemma_enter_sends(s: AppView, k: Key)
    requires
        k.code == KeyCode::Enter,
        !s.streaming,
        trim(s.input).len() > 0,
    ensures
        key_step(s, k).1 == ActionView::Send(trim(s.input)),
        key_step(s, k).0.input.len() == 0,
        key_step(s, k).0.streaming,
        key_step(s, k).0.scroll_back == 0,
        key_step(s, k).0.messages.len() == s.messages.len() + 2,
        key_step(s, k).0.messages.take(s.messages.len() as int) == s.messages,
        key_step(s, k).0.messages[s.messages.len() as int] == (MsgView {
            role: Role::User,
            text: trim(s.input),
        }),
        key_step(s, k).0.messages[s.messages.len() + 1int] == (MsgView {
            role: Role::Bot,
            text: seq![],
        }),
        key_step(s, k).0.agent == s.agent,
        key_step(s, k).0.session == s.session,
{
    let ms = key_step(s, k).0.messages;
    assert(ms.take(s.messages.len() as int) =~= s.messages);
}

/// How a frame changes the chat: a token is appended to the agent's reply
/// when that reply is the last line; an error ends the streaming and shows
/// "⚠ " and its message as the last line, dropping only an empty reply
/// before it; `Done` ends the streaming and keeps the conversation. No frame
/// touches the input, the scroll position, the agent or the session.
pub proof fn lemma_frame_effects(s: AppView, f: FrameView)
    ensures
        frame_step(s, f).input == s.input,
        frame_step(s, f).scroll_back == s.scroll_back,
        frame_step(s, f).agent == s.agent,
        frame_step(s, f).session == s.session,
        f is Token ==> frame_step(s, f).streaming == s.streaming,
        f matches FrameView::Token(t) ==> (s.messages.len() > 0 && s.messages.last().role
            == Role::Bot ==> frame_step(s, f).messages == s.messages.drop_last().push(
            MsgView { role: Role::Bot, text: s.messages.last().text + t },
        )),
        f is Done ==> !frame_step(s, f).streaming && frame_step(s, f).messages == s.messages,
        f matches FrameView::Error(e) ==> {
            let ms = frame_step(s, f).messages;
            &&& !frame_step(s, f).streaming
            &&& ms.len() >= 1
            &&& ms.last() == MsgView { role: Role::Error, text: "\u{26a0} "@ + e }
            &&& ms.drop_last() == s.messages || (s.messages.len() > 0 && s.messages.last()
                == MsgView { role: Role::Bot, text: seq![] } && ms.drop_last()
                == s.messages.drop_last())
        },
{
    match f {
        FrameView::Token(t) => {
            if s.messages.len() > 0 && s.messages.last().role == Role::Bot {
                let ms = s.messages;
                assert(last_bot_index(ms) == Some(ms.len() - 1));
                assert(ms.update(ms.len() - 1, MsgView { role: Role::Bot, text: ms.last().text + t })
                    =~= ms.drop_last().push(MsgView { role: Role::Bot, text: ms.last().text + t }));
            }
        },
        FrameView::Error(e) => {
            let ms = frame_step(s, f).messages;
            let ok = s.messages.len() > 0 && s.messages.last().role == Role::Bot
                && s.messages.last().text.len() == 0;
            if ok {
                assert(s.messages.last().text =~= Seq::<char>::empty());
                assert(ms.drop_last() =~= s.messages.drop_last());
            } else {
                assert(ms.drop_last() =~= s.messages);
            }
        },
        FrameView::Done => {},
    }
}

} // verus!

verus! {

/// What the single-turn mode does with a frame.
#[derive(Debug, PartialEq, Eq)]
pub enum OnceOutput {
    /// Write the token to standard output.
    Print(String),
    /// Report the stream error on standard error.
    Report(String),
    /// The reply is complete.
    Stop,
}

/// The single-turn mode: tokens are printed, an error is reported and makes
/// the exit code 1, `Done` stops; `code` is the exit code so far.
pub fn once_step(frame: Frame, code: i32) -> (r: (OnceOutput, i32))
    ensures
        frame@ matches FrameView::Token(t) ==> (r.0 matches OnceOutput::Print(p) && p@ == t),
        frame@ matches FrameView::Error(e) ==> (r.0 matches OnceOutput::Report(m) && m@ == e),
        frame@ is Done ==> r.0 is Stop,
        r.1 == if frame@ is Error {
            1
        } else {
            code
        },
{
    match frame {
        Frame::Token(s) => (OnceOutput::Print(s), code),
        Frame::Error(e) => (OnceOutput::Report(e), 1),
        Frame::Done => (OnceOutput::Stop, code),
    }
}

} // verus!
