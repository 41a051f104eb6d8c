//! How the name of an entry is shown: its text and its colour.

use vstd::prelude::*;
use vstd::string::StringExecFns;
use vstd::string::StrSliceExecFns;
use colorized::{Color, Colors};

verus! {

/// The colour in which a name is shown, where it has one.
#[derive(Clone, Copy, Debug, PartialEq, Eq, Structural)]
pub enum Tone {
    /// The colour of a directory.
    Accent,
    /// The colour of a hidden entry.
    Muted,
}

/// The escape sequence that ends a coloured text.
pub open spec fn reset_code() -> Seq<char> {
    "\x1b[0m"@
}

/// The escape sequence that starts a text in `tone`: blue for `Accent`,
/// bright black for `Muted`.
pub open spec fn tone_code(tone: Tone) -> Seq<char> {
    match tone {
        Tone::Accent => "\x1b[34m"@,
        Tone::Muted => "\x1b[90m"@,
    }
}

/// `text` between the escape sequence of `tone` and the reset sequence.
pub open spec fn painted(text: Seq<char>, tone: Tone) -> Seq<char> {
    tone_code(tone) + text + reset_code()
}

/// A name is hidden if it starts with a dot.
pub open spec fn is_hidden(name: Seq<char>) -> bool {
    name.len() > 0 && name[0] == '.'
}

/// The colour of an entry: hidden entries are muted, whatever they are;
/// other directories are accented; other files have no colour.
pub open spec fn tone_of(name: Seq<char>, is_dir: bool) -> Option<Tone> {
    if is_hidden(name) {
        Some(Tone::Muted)
    } else if is_dir {
        Some(Tone::Accent)
    } else {
        None
    }
}

/// The name as it is shown: a directory's name is followed by a slash.
pub open spec fn display_text(name: Seq<char>, is_dir: bool) -> Seq<char> {
    if is_dir {
        name + "/"@
    } else {
        name
    }
}

/// The display text of an entry in the colour of the entry.
pub open spec fn styled_name(name: Seq<char>, is_dir: bool) -> Seq<char> {
    match tone_of(name, is_dir) {
        Some(tone) => painted(display_text(name, is_dir), tone),
        None => display_text(name, is_dir),
    }
}

/// Colours `text` with `colorized`'s `Color::color` for `String`, which
/// formats the escape sequence of the colour, the text and the reset
/// sequence, in this order. `Accent` is `Colors::BlueFg`, `Muted` is
/// `Colors::BrightBlackFg`.
#[verifier::external_body]
fn colorize(text: &String, tone: Tone) -> (out: String)
    ensures
        out@ == painted(text@, tone),
{
    text.color(
        match tone {
            Tone::Accent => Colors::BlueFg,
            Tone::Muted => Colors::BrightBlackFg,
        },
    )
}

/// Whether `name` starts with a dot.
pub fn hidden(name: &str) -> (h: bool)
    ensures
        h == is_hidden(name@),
{
    !name.is_empty() && name.get_char(0) == '.'
}

/// The colour in which the entry is shown.
pub fn tone(name: &str, is_dir: bool) -> (t: Option<Tone>)
    ensures
        t == tone_of(name@, is_dir),
{
    if hidden(name) {
        Some(Tone::Muted)
    } else if is_dir {
        Some(Tone::Accent)
    } else {
        None
    }
}

/// The name of an entry as it stands in its line: with a slash after a
/// directory's name, and in the entry's colour.
pub fn formatted_name(name: &str, is_dir: bool) -> (out: String)
    ensures
        out@ == styled_name(name@, is_dir),
{
    let mut text = String::from_str(name);
    if is_dir {
        text.append("/");
    }
    match tone(name, is_dir) {
        Some(t) => colorize(&text, t),
        None => text,
    }
}

/// A hidden entry is muted whether it is a directory or a file, and its
/// styled name differs from the bare display text and from the accented one.
pub proof fn lemma_hidden_is_muted(name: Seq<char>, is_dir: bool)
    requires
        is_hidden(name),
    ensures
        tone_of(name, is_dir) == Some(Tone::Muted),
        styled_name(name, is_dir) == painted(display_text(name, is_dir), Tone::Muted),
        styled_name(name, is_dir) != display_text(name, is_dir),
        styled_name(name, is_dir) != painted(display_text(name, is_dir), Tone::Accent),
{
    reveal_strlit("\x1b[34m");
    reveal_strlit("\x1b[90m");
    let text = display_text(name, is_dir);
    assert(painted(text, Tone::Muted)[2] == '9');
    assert(painted(text, Tone::Accent)[2] == '3');
}

} // verus!
