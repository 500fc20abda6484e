use ghosty_tui::chat::{App, Msg, Role};
use ghosty_tui::render::{build_lines, frame_screen, screen, Area, Span, Tone};

fn span(text: &str, tone: Tone) -> Span {
    Span { text: text.to_string(), tone }
}

fn chat_with(messages: Vec<(Role, &str)>) -> App {
    let mut a = App::new("6a297a67-aaaa-bbbb".to_string(), "default".to_string());
    a.messages = messages
        .into_iter()
        .map(|(role, text)| Msg { role, text: text.to_string() })
        .collect();
    a
}

#[test]
fn user_and_system_lines() {
    let a = chat_with(vec![(Role::User, "hola"), (Role::System, "listo")]);
    let lines = build_lines(&a, 20);
    assert_eq!(
        lines,
        vec![
            vec![span("› ", Tone::Accent(Role::User)), span("hola", Tone::Accent(Role::User))],
            vec![span("listo", Tone::Accent(Role::System))],
        ]
    );
}

#[test]
fn bot_lines_are_plain_and_indented() {
    let a = chat_with(vec![(Role::Bot, "hola mundo")]);
    let lines = build_lines(&a, 12);
    assert_eq!(
        lines,
        vec![
            vec![span("ghosty ", Tone::Accent(Role::Bot)), span("hola", Tone::Plain)],
            vec![span("       mundo", Tone::Plain)],
        ]
    );
}

#[test]
fn narrow_box_still_leaves_one_column() {
    let a = chat_with(vec![(Role::Bot, "ab")]);
    let lines = build_lines(&a, 3);
    assert_eq!(
        lines,
        vec![
            vec![span("ghosty ", Tone::Accent(Role::Bot)), span("a", Tone::Plain)],
            vec![span("       b", Tone::Plain)],
        ]
    );
}

#[test]
fn error_lines_keep_their_colour() {
    let a = chat_with(vec![(Role::Error, "⚠ x")]);
    assert_eq!(build_lines(&a, 10), vec![vec![span("⚠ x", Tone::Accent(Role::Error))]]);
}

#[test]
fn screen_at_the_bottom() {
    let mut a = chat_with(vec![
        (Role::System, "uno"),
        (Role::System, "dos"),
        (Role::System, "tres"),
        (Role::System, "cuatro"),
    ]);
    a.input = "hola".to_string();
    let history = Area { x: 0, y: 0, width: 30, height: 4 };
    let status = Area { x: 0, y: 4, width: 30, height: 1 };
    let input = Area { x: 0, y: 5, width: 30, height: 3 };
    let s = screen(&a, history, status, input);
    assert_eq!(s.title, " ghosty · 6a297a67… ");
    assert_eq!(s.lines.len(), 4);
    assert_eq!(s.scroll, 2);
    assert_eq!(s.cursor_x, 5);
    assert_eq!(s.cursor_y, 6);
    assert_eq!(s.status, " ○ listo · Enter envía · Esc sale · PgUp/PgDn scroll");
    a.scroll_back = 1;
    a.streaming = true;
    let s = screen(&a, history, status, input);
    assert_eq!(s.scroll, 1);
    assert_eq!(s.status, " ● ghosty está respondiendo…");
    a.scroll_back = 9;
    assert_eq!(screen(&a, history, status, input).scroll, 0);
}

#[test]
fn cursor_stays_inside_the_box() {
    let mut a = chat_with(vec![]);
    a.input = "una línea bastante larga".to_string();
    let history = Area { x: 2, y: 1, width: 10, height: 10 };
    let status = Area { x: 2, y: 11, width: 10, height: 1 };
    let input = Area { x: 2, y: 12, width: 8, height: 3 };
    let s = screen(&a, history, status, input);
    assert_eq!(s.cursor_x, 2 + 1 + 6);
    assert_eq!(s.scroll, 0);
    assert!(s.lines.is_empty());
}

#[test]
fn whole_terminal_is_split_in_three_rows() {
    let mut a = chat_with(vec![(Role::System, "hola")]);
    a.input = "abc".to_string();
    let s = frame_screen(&a, Area { x: 0, y: 0, width: 40, height: 12 }).unwrap();
    assert_eq!(s.history_area, Area { x: 0, y: 0, width: 40, height: 8 });
    assert_eq!(s.status_area, Area { x: 0, y: 8, width: 40, height: 1 });
    assert_eq!(s.input_area, Area { x: 0, y: 9, width: 40, height: 3 });
    assert_eq!(s.cursor_x, 4);
    assert_eq!(s.cursor_y, 10);
    assert_eq!(s.lines.len(), 1);
}

#[test]
fn agent_id_is_cut_by_characters() {
    let mut a = chat_with(vec![]);
    a.agent = "aññññññññññ".to_string();
    let s = frame_screen(&a, Area { x: 0, y: 0, width: 40, height: 12 }).unwrap();
    assert_eq!(s.title, " ghosty · añññññññ… ");
    a.agent = "ñññññ-abcdef".to_string();
    let s = frame_screen(&a, Area { x: 0, y: 0, width: 40, height: 12 }).unwrap();
    assert_eq!(s.title, " ghosty · ñññññ-ab… ");
    a.agent = "0123456789".to_string();
    let s = frame_screen(&a, Area { x: 0, y: 0, width: 40, height: 12 }).unwrap();
    assert_eq!(s.title, " ghosty · 0123456789 ");
}
