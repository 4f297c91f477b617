//! Keys and key combinations: characters, descriptions and captions.

use raw_map::colors::Color;
use raw_map::event::{hotkeys, lctrl, Key, MultiKey, Style};

#[test]
fn to_char_follows_shift() {
    assert_eq!(Key::A.to_char(false), Some('a'));
    assert_eq!(Key::A.to_char(true), Some('A'));
    assert_eq!(Key::Num5.to_char(false), Some('5'));
    assert_eq!(Key::Num5.to_char(true), Some('%'));
    assert_eq!(Key::Space.to_char(true), Some(' '));
    assert_eq!(Key::Slash.to_char(true), Some('?'));
    assert_eq!(Key::SingleQuote.to_char(false), Some('\''));
    assert_eq!(Key::SingleQuote.to_char(true), Some('"'));
    assert_eq!(Key::Escape.to_char(false), None);
    assert_eq!(Key::F11.to_char(true), None);
}

#[test]
fn describe_names_keys() {
    assert_eq!(Key::Escape.describe(), "Escape");
    assert_eq!(Key::LeftControl.describe(), "left Control");
    assert_eq!(Key::LeftArrow.describe(), "← arrow");
    assert_eq!(Key::UpArrow.describe(), "↑");
    assert_eq!(Key::Space.describe(), "Space");
    assert_eq!(Key::B.describe(), "b");
    assert_eq!(Key::Num7.describe(), "7");
    assert_eq!(Key::F3.describe(), "F3");
}

#[test]
fn multikey_describe_joins() {
    assert_eq!(MultiKey::Normal(Key::Z).describe(), "z");
    assert_eq!(lctrl(Key::E).describe(), "Ctrl+e");
    assert_eq!(hotkeys(vec![Key::A, Key::B, Key::Enter]).describe(), "a, b, Enter");
    assert_eq!(hotkeys(Vec::new()).describe(), "");
}

#[test]
fn txt_uses_hotkey_color() {
    let style = Style { text_hotkey_color: Color { r: 10, g: 20, b: 30, a: 255 } };
    let span = Key::Z.txt(&style);
    assert_eq!(span.text, "z");
    assert_eq!(span.fg, Some(style.text_hotkey_color));
    let span2 = lctrl(Key::Z).txt(&style);
    assert_eq!(span2.text, "Ctrl+z");
    assert_eq!(span2.fg, Some(style.text_hotkey_color));
}
