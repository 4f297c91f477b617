//! Keyboard keys and key combinations, with their character and display
//! forms. The case of a key is unspecified: shift state decides which
//! character a key press produces.

use vstd::prelude::*;
use vstd::string::StringExecFns;
use crate::colors::Color;

verus! {

/// A key of the keyboard.
#[derive(Clone, Copy, PartialEq, Eq, Structural, PartialOrd, Ord, Hash, Debug)]
pub enum Key {
    A,
    B,
    C,
    D,
    E,
    F,
    G,
    H,
    I,
    J,
    K,
    L,
    M,
    N,
    O,
    P,
    Q,
    R,
    S,
    T,
    U,
    V,
    W,
    X,
    Y,
    Z,
    Num1,
    Num2,
    Num3,
    Num4,
    Num5,
    Num6,
    Num7,
    Num8,
    Num9,
    Num0,
    LeftBracket,
    RightBracket,
    Space,
    Slash,
    Dot,
    Comma,
    Semicolon,
    Colon,
    Equals,
    SingleQuote,
    Escape,
    Enter,
    Tab,
    Backspace,
    LeftShift,
    LeftControl,
    LeftAlt,
    RightAlt,
    LeftArrow,
    RightArrow,
    UpArrow,
    DownArrow,
    F1,
    F2,
    F3,
    F4,
    F5,
    F6,
    F7,
    F8,
    F9,
    F10,
    F11,
    F12,
}

/// The character a key press produces, given the shift state; keys with
/// no straightforward single-character form produce none.
pub open spec fn to_char_spec(k: Key, shift: bool) -> Option<char> {
    match k {
        Key::A => Some(if shift { 'A' } else { 'a' }),
        Key::B => Some(if shift { 'B' } else { 'b' }),
        Key::C => Some(if shift { 'C' } else { 'c' }),
        Key::D => Some(if shift { 'D' } else { 'd' }),
        Key::E => Some(if shift { 'E' } else { 'e' }),
        Key::F => Some(if shift { 'F' } else { 'f' }),
        Key::G => Some(if shift { 'G' } else { 'g' }),
        Key::H => Some(if shift { 'H' } else { 'h' }),
        Key::I => Some(if shift { 'I' } else { 'i' }),
        Key::J => Some(if shift { 'J' } else { 'j' }),
        Key::K => Some(if shift { 'K' } else { 'k' }),
        Key::L => Some(if shift { 'L' } else { 'l' }),
        Key::M => Some(if shift { 'M' } else { 'm' }),
        Key::N => Some(if shift { 'N' } else { 'n' }),
        Key::O => Some(if shift { 'O' } else { 'o' }),
        Key::P => Some(if shift { 'P' } else { 'p' }),
        Key::Q => Some(if shift { 'Q' } else { 'q' }),
        Key::R => Some(if shift { 'R' } else { 'r' }),
        Key::S => Some(if shift { 'S' } else { 's' }),
        Key::T => Some(if shift { 'T' } else { 't' }),
        Key::U => Some(if shift { 'U' } else { 'u' }),
        Key::V => Some(if shift { 'V' } else { 'v' }),
        Key::W => Some(if shift { 'W' } else { 'w' }),
        Key::X => Some(if shift { 'X' } else { 'x' }),
        Key::Y => Some(if shift { 'Y' } else { 'y' }),
        Key::Z => Some(if shift { 'Z' } else { 'z' }),
        Key::Num1 => Some(if shift { '!' } else { '1' }),
        Key::Num2 => Some(if shift { '@' } else { '2' }),
        Key::Num3 => Some(if shift { '#' } else { '3' }),
        Key::Num4 => Some(if shift { '$' } else { '4' }),
        Key::Num5 => Some(if shift { '%' } else { '5' }),
        Key::Num6 => Some(if shift { '^' } else { '6' }),
        Key::Num7 => Some(if shift { '&' } else { '7' }),
        Key::Num8 => Some(if shift { '*' } else { '8' }),
        Key::Num9 => Some(if shift { '(' } else { '9' }),
        Key::Num0 => Some(if shift { ')' } else { '0' }),
        Key::LeftBracket => Some(if shift { '{' } else { '[' }),
        Key::RightBracket => Some(if shift { '}' } else { ']' }),
        Key::Space => Some(' '),
        Key::Slash => Some(if shift { '?' } else { '/' }),
        Key::Dot => Some(if shift { '>' } else { '.' }),
        Key::Comma => Some(if shift { '<' } else { ',' }),
        Key::Semicolon => Some(';'),
        Key::Colon => Some(':'),
        Key::Equals => Some(if shift { '+' } else { '=' }),
        Key::SingleQuote => Some(if shift { '\"' } else { '\'' }),
        _ => None,
    }
}

/// How a key is described to the user: a name for the special keys, the
/// unshifted character for the rest.
pub open spec fn describe_spec(k: Key) -> Seq<char> {
    match k {
        Key::A => "a"@,
        Key::B => "b"@,
        Key::C => "c"@,
        Key::D => "d"@,
        Key::E => "e"@,
        Key::F => "f"@,
        Key::G => "g"@,
        Key::H => "h"@,
        Key::I => "i"@,
        Key::J => "j"@,
        Key::K => "k"@,
        Key::L => "l"@,
        Key::M => "m"@,
        Key::N => "n"@,
        Key::O => "o"@,
        Key::P => "p"@,
        Key::Q => "q"@,
        Key::R => "r"@,
        Key::S => "s"@,
        Key::T => "t"@,
        Key::U => "u"@,
        Key::V => "v"@,
        Key::W => "w"@,
        Key::X => "x"@,
        Key::Y => "y"@,
        Key::Z => "z"@,
        Key::Num1 => "1"@,
        Key::Num2 => "2"@,
        Key::Num3 => "3"@,
        Key::Num4 => "4"@,
        Key::Num5 => "5"@,
        Key::Num6 => "6"@,
        Key::Num7 => "7"@,
        Key::Num8 => "8"@,
        Key::Num9 => "9"@,
        Key::Num0 => "0"@,
        Key::LeftBracket => "["@,
        Key::RightBracket => "]"@,
        Key::Space => "Space"@,
        Key::Slash => "/"@,
        Key::Dot => "."@,
        Key::Comma => ","@,
        Key::Semicolon => ";"@,
        Key::Colon => ":"@,
        Key::Equals => "="@,
        Key::SingleQuote => "'"@,
        Key::Escape => "Escape"@,
        Key::Enter => "Enter"@,
        Key::Tab => "Tab"@,
        Key::Backspace => "Backspace"@,
        Key::LeftShift => "Shift"@,
        Key::LeftControl => "left Control"@,
        Key::LeftAlt => "left Alt"@,
        Key::RightAlt => "right Alt"@,
        Key::LeftArrow => "← arrow"@,
        Key::RightArrow => "→ arrow"@,
        Key::UpArrow => "↑"@,
        Key::DownArrow => "↓"@,
        Key::F1 => "F1"@,
        Key::F2 => "F2"@,
        Key::F3 => "F3"@,
        Key::F4 => "F4"@,
        Key::F5 => "F5"@,
        Key::F6 => "F6"@,
        Key::F7 => "F7"@,
        Key::F8 => "F8"@,
        Key::F9 => "F9"@,
        Key::F10 => "F10"@,
        Key::F11 => "F11"@,
        Key::F12 => "F12"@,
    }
}

/// A piece of styled text.
#[derive(Clone, PartialEq, Eq, Debug)]
pub struct TextSpan {
    pub text: String,
    pub fg: Option<Color>,
}

/// The styling context a key caption is rendered in.
#[derive(Clone, Copy, PartialEq, Eq, Structural, Debug)]
pub struct Style {
    pub text_hotkey_color: Color,
}

impl Key {
    /// Exact evaluation of `to_char_spec`.
    pub fn to_char(self, shift_pressed: bool) -> (r: Option<char>)
        ensures
            r == to_char_spec(self, shift_pressed),
    {
        let shift = shift_pressed;
        match self {
            Key::A => Some(if shift { 'A' } else { 'a' }),
            Key::B => Some(if shift { 'B' } else { 'b' }),
            Key::C => Some(if shift { 'C' } else { 'c' }),
            Key::D => Some(if shift { 'D' } else { 'd' }),
            Key::E => Some(if shift { 'E' } else { 'e' }),
            Key::F => Some(if shift { 'F' } else { 'f' }),
            Key::G => Some(if shift { 'G' } else { 'g' }),
            Key::H => Some(if shift { 'H' } else { 'h' }),
            Key::I => Some(if shift { 'I' } else { 'i' }),
            Key::J => Some(if shift { 'J' } else { 'j' }),
            Key::K => Some(if shift { 'K' } else { 'k' }),
            Key::L => Some(if shift { 'L' } else { 'l' }),
            Key::M => Some(if shift { 'M' } else { 'm' }),
            Key::N => Some(if shift { 'N' } else { 'n' }),
            Key::O => Some(if shift { 'O' } else { 'o' }),
            Key::P => Some(if shift { 'P' } else { 'p' }),
            Key::Q => Some(if shift { 'Q' } else { 'q' }),
            Key::R => Some(if shift { 'R' } else { 'r' }),
            Key::S => Some(if shift { 'S' } else { 's' }),
            Key::T => Some(if shift { 'T' } else { 't' }),
            Key::U => Some(if shift { 'U' } else { 'u' }),
            Key::V => Some(if shift { 'V' } else { 'v' }),
            Key::W => Some(if shift { 'W' } else { 'w' }),
            Key::X => Some(if shift { 'X' } else { 'x' }),
            Key::Y => Some(if shift { 'Y' } else { 'y' }),
            Key::Z => Some(if shift { 'Z' } else { 'z' }),
            Key::Num1 => Some(if shift { '!' } else { '1' }),
            Key::Num2 => Some(if shift { '@' } else { '2' }),
            Key::Num3 => Some(if shift { '#' } else { '3' }),
            Key::Num4 => Some(if shift { '$' } else { '4' }),
            Key::Num5 => Some(if shift { '%' } else { '5' }),
            Key::Num6 => Some(if shift { '^' } else { '6' }),
            Key::Num7 => Some(if shift { '&' } else { '7' }),
            Key::Num8 => Some(if shift { '*' } else { '8' }),
            Key::Num9 => Some(if shift { '(' } else { '9' }),
            Key::Num0 => Some(if shift { ')' } else { '0' }),
            Key::LeftBracket => Some(if shift { '{' } else { '[' }),
            Key::RightBracket => Some(if shift { '}' } else { ']' }),
            Key::Space => Some(' '),
            Key::Slash => Some(if shift { '?' } else { '/' }),
            Key::Dot => Some(if shift { '>' } else { '.' }),
            Key::Comma => Some(if shift { '<' } else { ',' }),
            Key::Semicolon => Some(';'),
            Key::Colon => Some(':'),
            Key::Equals => Some(if shift { '+' } else { '=' }),
            Key::SingleQuote => Some(if shift { '\"' } else { '\'' }),
            _ => None,
        }
    }

    /// Exact evaluation of `describe_spec`.
    pub fn describe(self) -> (r: String)
        ensures
            r@ == describe_spec(self),
    {
        match self {
            Key::A => String::from_str("a"),
            Key::B => String::from_str("b"),
            Key::C => String::from_str("c"),
            Key::D => String::from_str("d"),
            Key::E => String::from_str("e"),
            Key::F => String::from_str("f"),
            Key::G => String::from_str("g"),
            Key::H => String::from_str("h"),
            Key::I => String::from_str("i"),
            Key::J => String::from_str("j"),
            Key::K => String::from_str("k"),
            Key::L => String::from_str("l"),
            Key::M => String::from_str("m"),
            Key::N => String::from_str("n"),
            Key::O => String::from_str("o"),
            Key::P => String::from_str("p"),
            Key::Q => String::from_str("q"),
            Key::R => String::from_str("r"),
            Key::S => String::from_str("s"),
            Key::T => String::from_str("t"),
            Key::U => String::from_str("u"),
            Key::V => String::from_str("v"),
            Key::W => String::from_str("w"),
            Key::X => String::from_str("x"),
            Key::Y => String::from_str("y"),
            Key::Z => String::from_str("z"),
            Key::Num1 => String::from_str("1"),
            Key::Num2 => String::from_str("2"),
            Key::Num3 => String::from_str("3"),
            Key::Num4 => String::from_str("4"),
            Key::Num5 => String::from_str("5"),
            Key::Num6 => String::from_str("6"),
            Key::Num7 => String::from_str("7"),
            Key::Num8 => String::from_str("8"),
            Key::Num9 => String::from_str("9"),
            Key::Num0 => String::from_str("0"),
            Key::LeftBracket => String::from_str("["),
            Key::RightBracket => String::from_str("]"),
            Key::Space => String::from_str("Space"),
            Key::Slash => String::from_str("/"),
            Key::Dot => String::from_str("."),
            Key::Comma => String::from_str(","),
            Key::Semicolon => String::from_str(";"),
            Key::Colon => String::from_str(":"),
            Key::Equals => String::from_str("="),
            Key::SingleQuote => String::from_str("'"),
            Key::Escape => String::from_str("Escape"),
            Key::Enter => String::from_str("Enter"),
            Key::Tab => String::from_str("Tab"),
            Key::Backspace => String::from_str("Backspace"),
            Key::LeftShift => String::from_str("Shift"),
            Key::LeftControl => String::from_str("left Control"),
            Key::LeftAlt => String::from_str("left Alt"),
            Key::RightAlt => String::from_str("right Alt"),
            Key::LeftArrow => String::from_str("← arrow"),
            Key::RightArrow => String::from_str("→ arrow"),
            Key::UpArrow => String::from_str("↑"),
            Key::DownArrow => String::from_str("↓"),
            Key::F1 => String::from_str("F1"),
            Key::F2 => String::from_str("F2"),
            Key::F3 => String::from_str("F3"),
            Key::F4 => String::from_str("F4"),
            Key::F5 => String::from_str("F5"),
            Key::F6 => String::from_str("F6"),
            Key::F7 => String::from_str("F7"),
            Key::F8 => String::from_str("F8"),
            Key::F9 => String::from_str("F9"),
            Key::F10 => String::from_str("F10"),
            Key::F11 => String::from_str("F11"),
            Key::F12 => String::from_str("F12"),
        }
    }

    /// The key's caption in the hotkey color of the given style.
    pub fn txt(self, ctx: &Style) -> (r: TextSpan)
        ensures
            r.text@ == describe_spec(self),
            r.fg == Some(ctx.text_hotkey_color),
    {
        TextSpan { text: self.describe(), fg: Some(ctx.text_hotkey_color) }
    }
}

/// A key with its modifier context: the key alone, the key with the left
/// control key held, or any one of a set of keys.
#[derive(Clone, PartialEq, Eq, PartialOrd, Ord, Hash, Debug)]
pub enum MultiKey {
    Normal(Key),
    LCtrl(Key),
    Any(Vec<Key>),
}

/// The descriptions of the first `i` keys, joined with commas.
pub open spec fn joined_describe(ks: Seq<Key>, i: int) -> Seq<char>
    decreases i,
{
    if i <= 0 {
        Seq::empty()
    } else if i == 1 {
        describe_spec(ks[0])
    } else {
        joined_describe(ks, i - 1) + ", "@ + describe_spec(ks[i - 1])
    }
}

/// How a key combination is described to the user.
pub open spec fn multikey_describe_spec(mk: MultiKey) -> Seq<char> {
    match mk {
        MultiKey::Normal(k) => describe_spec(k),
        MultiKey::LCtrl(k) => "Ctrl+"@ + describe_spec(k),
        MultiKey::Any(keys) => joined_describe(keys@, keys@.len() as int),
    }
}

impl MultiKey {
    /// Exact evaluation of `multikey_describe_spec`.
    #[verifier::loop_isolation(false)]
    pub fn describe(&self) -> (r: String)
        ensures
            r@ == multikey_describe_spec(*self),
    {
        match self {
            MultiKey::Normal(key) => key.describe(),
            MultiKey::LCtrl(key) => String::from_str("Ctrl+").concat(key.describe().as_str()),
            MultiKey::Any(keys) => {
                let n = keys.len();
                let mut acc = String::new();
                let mut i: usize = 0;
                while i < n
                    invariant
                        0 <= i <= n,
                        acc@ == joined_describe(keys@, i as int),
                    decreases n - i,
                {
                    if i > 0 {
                        acc = acc.concat(", ");
                    }
                    acc = acc.concat(keys[i].describe().as_str());
                    i = i + 1;
                }
                acc
            },
        }
    }

    /// The combination's caption in the hotkey color of the given style.
    pub fn txt(&self, ctx: &Style) -> (r: TextSpan)
        ensures
            r.text@ == multikey_describe_spec(*self),
            r.fg == Some(ctx.text_hotkey_color),
    {
        TextSpan { text: self.describe(), fg: Some(ctx.text_hotkey_color) }
    }
}

/// The key with the left control key held.
pub fn lctrl(key: Key) -> (r: MultiKey)
    ensures
        r == MultiKey::LCtrl(key),
{
    MultiKey::LCtrl(key)
}

/// Any one of the given keys.
pub fn hotkeys(keys: Vec<Key>) -> (r: MultiKey)
    ensures
        r == MultiKey::Any(keys),
{
    MultiKey::Any(keys)
}

} // verus!
