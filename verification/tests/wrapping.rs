use ghosty_tui::text::trimmed;
use ghosty_tui::wrap::{short, wrap_text};

fn w(s: &str, width: usize) -> Vec<String> {
    wrap_text(s, width)
}

#[test]
fn wraps_at_word_boundaries() {
    assert_eq!(w("a b c", 3), vec!["a b", "c"]);
    assert_eq!(w("hola mundo", 10), vec!["hola mundo"]);
    assert_eq!(w("hola mundo", 9), vec!["hola", "mundo"]);
}

#[test]
fn long_words_are_cut() {
    assert_eq!(w("hola mundo", 4), vec!["hola", "mund", "o"]);
    assert_eq!(w("abcdefgh", 4), vec!["abcd", "efgh"]);
    assert_eq!(w("ab abcdefghi", 4), vec!["ab", "abcd", "efgh", "i"]);
}

#[test]
fn newlines_start_new_lines() {
    assert_eq!(w("x\n\ny", 5), vec!["x", "", "y"]);
    assert_eq!(w("uno\n", 5), vec!["uno", ""]);
}

#[test]
fn empty_text_and_zero_width() {
    assert_eq!(w("", 5), vec![""]);
    assert_eq!(w("sin cambio\nnada", 0), vec!["sin cambio\nnada"]);
}

#[test]
fn spaces_kept_inside_a_line() {
    assert_eq!(w("a  b", 10), vec!["a  b"]);
    assert_eq!(w("ab ", 2), vec!["ab", ""]);
}

#[test]
fn counts_characters_not_bytes() {
    assert_eq!(w("ñañá ñu", 4), vec!["ñañá", "ñu"]);
}

#[test]
fn every_line_fits() {
    let text = "Puedo ayudarte con ventas, gestionar tus documentos, clientes y pedidos\ny muchísimo más ¡de verdad!";
    for width in 1..30 {
        for line in w(text, width) {
            assert!(line.chars().count() <= width);
            assert!(!line.contains('\n'));
        }
    }
}

#[test]
fn short_ids() {
    assert_eq!(short("6a297a67-1234"), "6a297a67…");
    assert_eq!(short("6a297a67-aaaa-bbbb-cccc"), "6a297a67…");
    assert_eq!(short("01234567890"), "01234567…");
    assert_eq!(short("0123456789"), "0123456789");
    assert_eq!(short("abc"), "abc");
    assert_eq!(short("ñandú-123456"), "ñandú-12…");
    assert_eq!(short("ññññññññññ"), "ññññññññññ");
    assert_eq!(short("ñññññññññññ"), "ññññññññ…");
}

#[test]
fn trims_unicode_whitespace() {
    assert_eq!(trimmed("  hola \t\n"), "hola");
    assert_eq!(trimmed("\u{3000}x\u{a0}"), "x");
    assert_eq!(trimmed("   "), "");
}

#[test]
fn wrapping_keeps_every_visible_character() {
    let text = "uno dos  tres\ncuatrocincoseis siete\n\nocho";
    let visible: String = text.chars().filter(|c| *c != ' ' && *c != '\n').collect();
    for width in 0..12 {
        let joined: String = w(text, width).concat().chars().filter(|c| *c != ' ' && *c != '\n').collect();
        assert_eq!(joined, visible);
    }
}

#[test]
fn each_line_is_wrapped_on_its_own() {
    let cases: [(&str, &str, usize); 4] = [
        ("a b c", "d e", 3),
        ("hola mundo", "abcdefghi x", 4),
        ("", "uno dos", 5),
        ("x  y", "", 2),
    ];
    for (a, b, width) in cases {
        let joined = format!("{a}\n{b}");
        let mut expected = w(a, width);
        expected.extend(w(b, width));
        assert_eq!(w(&joined, width), expected);
    }
    assert_eq!(w("a b c\nd e", 3), vec!["a b", "c", "d e"]);
}

#[test]
fn wrapping_again_changes_nothing() {
    let texts = [
        "hola mundo que tal",
        "ab abcdefghi  c\n\nuno dos ",
        "ñandú corre rápido por el campo",
        " leading space",
    ];
    for text in texts {
        for width in 1..8 {
            for line in w(text, width) {
                assert_eq!(w(&line, width), vec![line.clone()]);
            }
        }
    }
}
