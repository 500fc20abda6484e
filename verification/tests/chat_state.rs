use ghosty_tui::chat::{
    once_step, App, Key, KeyCode, KeyKind, LoopAction, Modifiers, OnceOutput, Role, TermEvent,
};
use ghosty_tui::sse::Frame;

const NONE: Modifiers = Modifiers {
    shift: false,
    control: false,
    alt: false,
    super_key: false,
    hyper: false,
    meta: false,
};

fn press(code: KeyCode) -> TermEvent {
    TermEvent::Key(Key { code, modifiers: NONE, kind: KeyKind::Press })
}

fn press_with(code: KeyCode, modifiers: Modifiers) -> TermEvent {
    TermEvent::Key(Key { code, modifiers, kind: KeyKind::Press })
}

fn app() -> App {
    App::new("agente-1".to_string(), "default".to_string())
}

fn roles(a: &App) -> Vec<Role> {
    a.messages.iter().map(|m| m.role).collect()
}

fn type_text(a: &mut App, s: &str) {
    for c in s.chars() {
        assert_eq!(a.handle_event(press(KeyCode::Char(c))), LoopAction::Continue);
    }
}

#[test]
fn opens_with_a_system_line() {
    let a = app();
    assert_eq!(a.messages.len(), 1);
    assert_eq!(a.messages[0].role, Role::System);
    assert_eq!(
        a.messages[0].text,
        "Conectado a agente-1 · sesión default. Escribe y Enter para hablar. Esc para salir."
    );
    assert!(!a.streaming);
    assert_eq!(a.scroll_back, 0);
    assert_eq!(a.input, "");
}

#[test]
fn enter_sends_the_trimmed_input() {
    let mut a = app();
    type_text(&mut a, "  hola  ");
    assert_eq!(a.input, "  hola  ");
    a.scroll_back = 7;
    assert_eq!(a.handle_event(press(KeyCode::Enter)), LoopAction::Send("hola".to_string()));
    assert_eq!(a.input, "");
    assert!(a.streaming);
    assert_eq!(a.scroll_back, 0);
    assert_eq!(roles(&a), vec![Role::System, Role::User, Role::Bot]);
    assert_eq!(a.messages[1].text, "hola");
    assert_eq!(a.messages[2].text, "");
}

#[test]
fn enter_does_nothing_while_streaming_or_when_blank() {
    let mut a = app();
    type_text(&mut a, "   ");
    assert_eq!(a.handle_event(press(KeyCode::Enter)), LoopAction::Continue);
    assert_eq!(a.input, "   ");
    a.send("primero".to_string());
    type_text(&mut a, "otra");
    assert_eq!(a.handle_event(press(KeyCode::Enter)), LoopAction::Continue);
    assert_eq!(a.input, "   otra");
    assert_eq!(a.messages.len(), 3);
}

#[test]
fn tokens_fill_the_last_reply() {
    let mut a = app();
    a.send("hola".to_string());
    a.on_frame(Frame::Token("Buenas".to_string()));
    a.on_frame(Frame::Token(", ¿qué tal?".to_string()));
    assert_eq!(a.messages[2].text, "Buenas, ¿qué tal?");
    assert!(a.streaming);
    a.on_frame(Frame::Done);
    assert!(!a.streaming);
    assert_eq!(a.messages.len(), 3);
}

#[test]
fn token_without_reply_changes_nothing() {
    let mut a = app();
    a.on_frame(Frame::Token("x".to_string()));
    assert_eq!(a.messages.len(), 1);
    assert_eq!(a.last_bot(), None);
}

#[test]
fn error_replaces_an_empty_reply() {
    let mut a = app();
    a.send("hola".to_string());
    a.on_frame(Frame::Error("HTTP 500".to_string()));
    assert_eq!(roles(&a), vec![Role::System, Role::User, Role::Error]);
    assert_eq!(a.messages[2].text, "⚠ HTTP 500");
    assert!(!a.streaming);
}

#[test]
fn error_after_tokens_keeps_the_reply() {
    let mut a = app();
    a.send("hola".to_string());
    a.on_frame(Frame::Token("parcial".to_string()));
    a.on_frame(Frame::Error("corte".to_string()));
    assert_eq!(roles(&a), vec![Role::System, Role::User, Role::Bot, Role::Error]);
    assert_eq!(a.messages[2].text, "parcial");
    assert_eq!(a.last_bot(), Some(2));
}

#[test]
fn keys_that_quit() {
    let mut a = app();
    assert_eq!(a.handle_event(press(KeyCode::Esc)), LoopAction::Quit);
    let ctrl = Modifiers { control: true, ..NONE };
    assert_eq!(a.handle_event(press_with(KeyCode::Char('c'), ctrl)), LoopAction::Quit);
    assert_eq!(a.handle_event(TermEvent::Closed), LoopAction::Quit);
    let ctrl_shift = Modifiers { control: true, shift: true, ..NONE };
    assert_eq!(a.handle_event(press_with(KeyCode::Char('c'), ctrl_shift)), LoopAction::Continue);
    assert_eq!(a.input, "");
}

#[test]
fn typing_and_deleting() {
    let mut a = app();
    let shift = Modifiers { shift: true, ..NONE };
    a.handle_event(press_with(KeyCode::Char('H'), shift));
    a.handle_event(press(KeyCode::Char('o')));
    a.handle_event(press_with(KeyCode::Char('x'), Modifiers { alt: true, ..NONE }));
    a.handle_event(TermEvent::Key(Key { code: KeyCode::Char('z'), modifiers: NONE, kind: KeyKind::Release }));
    a.handle_event(TermEvent::Other);
    assert_eq!(a.input, "Ho");
    a.handle_event(press(KeyCode::Backspace));
    assert_eq!(a.input, "H");
    a.handle_event(press(KeyCode::Backspace));
    a.handle_event(press(KeyCode::Backspace));
    assert_eq!(a.input, "");
    a.handle_event(press(KeyCode::Other));
    assert_eq!(a.input, "");
}

#[test]
fn paging_scrolls_and_saturates() {
    let mut a = app();
    a.handle_event(press(KeyCode::PageUp));
    a.handle_event(press(KeyCode::PageUp));
    assert_eq!(a.scroll_back, 10);
    a.handle_event(press(KeyCode::PageDown));
    assert_eq!(a.scroll_back, 5);
    a.handle_event(press(KeyCode::PageDown));
    a.handle_event(press(KeyCode::PageDown));
    assert_eq!(a.scroll_back, 0);
    a.scroll_back = 65533;
    a.handle_event(press(KeyCode::PageUp));
    assert_eq!(a.scroll_back, 65535);
}

#[test]
fn single_turn_mode() {
    assert_eq!(once_step(Frame::Token("hola".to_string()), 0), (OnceOutput::Print("hola".to_string()), 0));
    assert_eq!(once_step(Frame::Error("x".to_string()), 0), (OnceOutput::Report("x".to_string()), 1));
    assert_eq!(once_step(Frame::Token("y".to_string()), 1), (OnceOutput::Print("y".to_string()), 1));
    assert_eq!(once_step(Frame::Done, 1), (OnceOutput::Stop, 1));
}
