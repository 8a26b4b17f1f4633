//! Context frame for error provenance tracking.

use vstd::prelude::*;
use vstd::string::StringExecFns;

verus! {

/// The file name of a frame whose location is not known.
pub open spec fn unknown_file() -> Seq<char> {
    "<unknown>"@
}

/// The character of a decimal digit.
pub open spec fn digit_char(d: nat) -> char {
    if d == 0 {
        '0'
    } else if d == 1 {
        '1'
    } else if d == 2 {
        '2'
    } else if d == 3 {
        '3'
    } else if d == 4 {
        '4'
    } else if d == 5 {
        '5'
    } else if d == 6 {
        '6'
    } else if d == 7 {
        '7'
    } else if d == 8 {
        '8'
    } else {
        '9'
    }
}

/// A number written in decimal, without leading zeros.
pub open spec fn decimal(n: nat) -> Seq<char>
    decreases n,
{
    if n < 10 {
        seq![digit_char(n)]
    } else {
        decimal(n / 10).push(digit_char(n % 10))
    }
}

/// How a frame reads: the message alone where the location is not known,
/// else the message, then `, at `, the file, the line and the column with
/// colons between them.
pub open spec fn frame_text(file: Seq<char>, line: u32, column: u32, message: Seq<char>) -> Seq<
    char,
> {
    if file == unknown_file() {
        message
    } else {
        message + ", at "@ + file + ":"@ + decimal(line as nat) + ":"@ + decimal(column as nat)
    }
}

/// The one-character string of a decimal digit.
fn digit_str(d: u32) -> (s: &'static str)
    requires
        d < 10,
    ensures
        s@ == seq![digit_char(d as nat)],
{
    proof {
        reveal_strlit("0");
        reveal_strlit("1");
        reveal_strlit("2");
        reveal_strlit("3");
        reveal_strlit("4");
        reveal_strlit("5");
        reveal_strlit("6");
        reveal_strlit("7");
        reveal_strlit("8");
        reveal_strlit("9");
    }
    let s = match d {
        0 => "0",
        1 => "1",
        2 => "2",
        3 => "3",
        4 => "4",
        5 => "5",
        6 => "6",
        7 => "7",
        8 => "8",
        _ => "9",
    };
    assert(s@ =~= seq![digit_char(d as nat)]);
    s
}

/// Appends a number in decimal to a string.
pub fn append_decimal(out: &mut String, n: u32)
    ensures
        final(out)@ == old(out)@ + decimal(n as nat),
    decreases n,
{
    if n >= 10 {
        append_decimal(out, n / 10);
    }
    out.append(digit_str(n % 10));
    proof {
        if n >= 10 {
            assert(final(out)@ =~= old(out)@ + decimal(n as nat));
        } else {
            assert(final(out)@ =~= old(out)@ + decimal(n as nat));
        }
    }
}

/// A single frame of error context.
///
/// Frames capture where context was added (file, line, column) and a message
/// describing what was happening at that point.
#[derive(Debug)]
pub struct Frame {
    file: String,
    line: u32,
    column: u32,
    message: String,
}

/// A frame as its contracts see it.
pub struct FrameView {
    pub file: Seq<char>,
    pub line: u32,
    pub column: u32,
    pub message: Seq<char>,
}

impl View for Frame {
    type V = FrameView;

    closed spec fn view(&self) -> FrameView {
        FrameView {
            file: self.file@,
            line: self.line,
            column: self.column,
            message: self.message@,
        }
    }
}

impl FrameView {
    /// How the frame reads.
    pub open spec fn text(self) -> Seq<char> {
        frame_text(self.file, self.line, self.column, self.message)
    }
}

impl Clone for Frame {
    fn clone(&self) -> (copy: Self)
        ensures
            copy@ == self@,
    {
        Frame {
            file: self.file.clone(),
            line: self.line,
            column: self.column,
            message: self.message.clone(),
        }
    }
}

impl PartialEq for Frame {
    fn eq(&self, other: &Self) -> (equal: bool) {
        self.file == other.file && self.line == other.line && self.column == other.column
            && self.message == other.message
    }
}

impl vstd::std_specs::cmp::PartialEqSpecImpl for Frame {
    open spec fn obeys_eq_spec() -> bool {
        true
    }

    open spec fn eq_spec(&self, other: &Self) -> bool {
        self@ == other@
    }
}

impl Eq for Frame {

}

impl Frame {
    /// Create a frame with explicit location.
    pub fn new(file: &str, line: u32, column: u32, message: &str) -> (frame: Self)
        ensures
            frame@ == (FrameView { file: file@, line, column, message: message@ }),
    {
        Self { file: String::from_str(file), line, column, message: String::from_str(message) }
    }

    /// Source file where context was added.
    pub fn file(&self) -> (file: &str)
        ensures
            file@ == self@.file,
    {
        self.file.as_str()
    }

    /// Line number where context was added.
    pub fn line(&self) -> (line: u32)
        ensures
            line == self@.line,
    {
        self.line
    }

    /// Column number where context was added.
    pub fn column(&self) -> (column: u32)
        ensures
            column == self@.column,
    {
        self.column
    }

    /// Context message describing what was happening.
    pub fn msg(&self) -> (message: &str)
        ensures
            message@ == self@.message,
    {
        self.message.as_str()
    }

    /// Create a frame with just a message (unknown location).
    pub fn message(message: &str) -> (frame: Self)
        ensures
            frame@ == (FrameView { file: unknown_file(), line: 0, column: 0, message: message@ }),
    {
        Self {
            file: String::from_str("<unknown>"),
            line: 0,
            column: 0,
            message: String::from_str(message),
        }
    }

    /// True if the frame has no known location.
    pub fn is_unlocated(&self) -> (unlocated: bool)
        ensures
            unlocated == (self@.file == unknown_file()),
    {
        let unknown = String::from_str("<unknown>");
        self.file == unknown
    }

    /// Appends the frame, as it reads, to a string.
    pub fn write_to(&self, out: &mut String)
        ensures
            final(out)@ == old(out)@ + self@.text(),
    {
        out.append(self.message.as_str());
        if !self.is_unlocated() {
            out.append(", at ");
            out.append(self.file.as_str());
            out.append(":");
            append_decimal(out, self.line);
            out.append(":");
            append_decimal(out, self.column);
        }
        proof {
            assert(final(out)@ =~= old(out)@ + self@.text());
        }
    }

    /// The frame as it reads.
    pub fn to_string(&self) -> (text: String)
        ensures
            text@ == self@.text(),
    {
        let mut text = String::new();
        self.write_to(&mut text);
        proof {
            assert(Seq::<char>::empty() + self@.text() =~= self@.text());
        }
        text
    }
}

} // verus!
