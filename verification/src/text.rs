//! Pieces of text for the screen.
use vstd::prelude::*;

verus! {

/// The digit `d` as a character.
pub open spec fn digit_text(d: nat) -> Seq<char> {
    if d == 0 {
        "0"@
    } else if d == 1 {
        "1"@
    } else if d == 2 {
        "2"@
    } else if d == 3 {
        "3"@
    } else if d == 4 {
        "4"@
    } else if d == 5 {
        "5"@
    } else if d == 6 {
        "6"@
    } else if d == 7 {
        "7"@
    } else if d == 8 {
        "8"@
    } else {
        "9"@
    }
}

/// The number in decimal notation.
pub open spec fn decimal(n: nat) -> Seq<char>
    decreases n,
{
    if n < 10 {
        digit_text(n)
    } else {
        decimal(n / 10) + digit_text(n % 10)
    }
}

fn digit_str(d: usize) -> (text: &'static str)
    requires
        d < 10,
    ensures
        text@ == digit_text(d as nat),
{
    if d == 0 {
        "0"
    } else if d == 1 {
        "1"
    } else if d == 2 {
        "2"
    } else if d == 3 {
        "3"
    } else if d == 4 {
        "4"
    } else if d == 5 {
        "5"
    } else if d == 6 {
        "6"
    } else if d == 7 {
        "7"
    } else if d == 8 {
        "8"
    } else {
        "9"
    }
}

/// Puts the number in decimal notation at the end of the text.
pub fn append_number(text: &mut String, n: usize)
    ensures
        final(text)@ == old(text)@ + decimal(n as nat),
    decreases n,
{
    if n < 10 {
        text.append(digit_str(n));
    } else {
        append_number(text, n / 10);
        text.append(digit_str(n % 10));
        proof {
            assert(text@ =~= old(text)@ + decimal(n as nat));
        }
    }
}

/// The colours of the screen.
#[derive(Clone, Copy, Debug, PartialEq, Eq, Structural)]
pub enum Ink {
    Plain,
    Cyan,
    Magenta,
    Green,
    Yellow,
    White,
    DarkCyan,
    DarkGrey,
}

/// A piece of text in one colour.
#[derive(Debug)]
pub struct Span {
    pub ink: Ink,
    pub text: String,
}

/// What a piece of text shows.
pub struct Piece {
    pub ink: Ink,
    pub text: Seq<char>,
}

/// What the pieces of text show.
pub open spec fn shown(spans: Seq<Span>) -> Seq<Piece> {
    spans.map_values(|span: Span| (Piece { ink: span.ink, text: span.text@ }))
}

/// A piece without colour.
pub open spec fn plain(text: Seq<char>) -> Piece {
    Piece { ink: Ink::Plain, text }
}

/// A piece in a colour.
pub open spec fn inked(ink: Ink, text: Seq<char>) -> Piece {
    Piece { ink, text }
}

/// Adds a piece of text to the screen.
pub fn put(frame: &mut Vec<Span>, ink: Ink, text: &str)
    ensures
        shown(final(frame)@) == shown(old(frame)@).push(inked(ink, text@)),
{
    put_string(frame, ink, text.to_owned());
}

/// Adds a piece of text to the screen.
pub fn put_string(frame: &mut Vec<Span>, ink: Ink, text: String)
    ensures
        shown(final(frame)@) == shown(old(frame)@).push(inked(ink, text@)),
{
    frame.push(Span { ink, text });
    proof {
        assert(shown(frame@) =~= shown(old(frame)@).push(inked(ink, text@)));
    }
}

} // verus!
