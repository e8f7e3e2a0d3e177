//! The cursor: a traversal of the characters of one source text that
//! keeps track of line and column.

use vstd::prelude::*;

verus! {

broadcast use vstd::string::group_string_axioms;

// line ending
pub const LF: char = '\u{a}';

pub const CR: char = '\u{d}';

pub const LS: char = '\u{2028}';

pub const PS: char = '\u{2029}';

/// The characters that end a line: LF, CR, LINE SEPARATOR and PARAGRAPH
/// SEPARATOR.
pub open spec fn spec_is_line_break(c: char) -> bool {
    c == LF || c == CR || c == LS || c == PS
}

/// Whether the character ends a line.
pub fn is_line_break(s: char) -> (r: bool)
    ensures
        r == spec_is_line_break(s),
{
    s == LF || s == CR || s == LS || s == PS
}

/// One character of the source together with its position.
#[derive(Debug)]
pub struct Char {
    pub text: String,
    pub line: u64,
    pub column: u64,
}

/// Mathematical model of a cursor: the text that is still to be read, the
/// position of its first character, and the column at which the current
/// lexeme began.
pub struct CodeView {
    pub rest: Seq<char>,
    pub line: nat,
    pub column: nat,
    pub column_start: nat,
}

impl CodeView {
    /// The cursor over a whole text: line 1, column 1.
    pub open spec fn start(text: Seq<char>) -> CodeView {
        CodeView { rest: text, line: 1, column: 1, column_start: 1 }
    }

    /// Positions start at 1 and can still count every character that is left.
    pub open spec fn wf(self) -> bool {
        &&& self.line >= 1
        &&& self.column >= 1
        &&& self.line + self.rest.len() <= u64::MAX
        &&& self.column + self.rest.len() <= u64::MAX
    }

    /// Whether no text is left.
    pub open spec fn at_end(self) -> bool {
        self.rest.len() == 0
    }

    /// The next character; meaningful unless the cursor is at the end.
    pub open spec fn head(self) -> char {
        self.rest[0]
    }

    /// What `peek` and `next` hand out.
    pub open spec fn front(self) -> Option<char> {
        if self.at_end() {
            None
        } else {
            Some(self.head())
        }
    }

    /// The cursor after one character has been consumed. A line break moves
    /// to column 1 of the following line; any other character moves one
    /// column on. At the end of the text nothing changes.
    pub open spec fn step(self) -> CodeView {
        if self.at_end() {
            self
        } else if spec_is_line_break(self.head()) {
            CodeView { rest: self.rest.drop_first(), line: self.line + 1, column: 1, ..self }
        } else {
            CodeView { rest: self.rest.drop_first(), column: self.column + 1, ..self }
        }
    }

    /// The cursor after `n` characters have been consumed.
    pub open spec fn skip(self, n: nat) -> CodeView
        decreases n,
    {
        if n == 0 {
            self
        } else {
            self.skip((n - 1) as nat).step()
        }
    }

    /// The cursor with the current column recorded as the start of a lexeme.
    pub open spec fn mark(self) -> CodeView {
        CodeView { column_start: self.column, ..self }
    }
}

/// The characters of a text, in order.
fn collect_chars(code: &str) -> (chars: Vec<char>)
    ensures
        chars@ == code@,
{
    let mut chars: Vec<char> = Vec::new();
    for c in it: code.chars()
        invariant
            chars@ == it.seq().take(it.index() as int),
            it.seq() == code@,
    {
        chars.push(c);
    }
    assert(chars@ =~= code@);
    chars
}

/// A cursor over the characters of one source text, which counts lines and
/// columns as it goes.
#[derive(Debug)]
pub struct Code {
    line_cursor: u64,
    chars: Vec<char>,
    pos: usize,
    column_cursor: u64,
    column_start: u64,
}

impl View for Code {
    type V = CodeView;

    closed spec fn view(&self) -> CodeView {
        CodeView {
            rest: self.chars@.skip(self.pos as int),
            line: self.line_cursor as nat,
            column: self.column_cursor as nat,
            column_start: self.column_start as nat,
        }
    }
}

impl Code {
    #[verifier::type_invariant]
    spec fn inv(self) -> bool {
        self.pos <= self.chars.len() && self@.wf()
    }

    /// A cursor at the first character of `code`. The text must be short
    /// enough for its lines and columns to be counted in 64 bits.
    pub fn new(code: &str) -> (r: Self)
        requires
            code@.len() < u64::MAX,
        ensures
            r@ == CodeView::start(code@),
    {
        let chars = collect_chars(code);
        let r = Code { line_cursor: 1, chars, pos: 0, column_cursor: 1, column_start: 1 };
        assert(r@.rest =~= code@);
        r
    }

    /// A cursor at the first character of `code`, or `None` where the text
    /// is too long for its lines and columns to be counted in 64 bits.
    pub fn try_new(code: &str) -> (r: Option<Self>)
        ensures
            code@.len() < u64::MAX ==> r is Some && r->0@ == CodeView::start(code@),
            code@.len() >= u64::MAX ==> r is None,
    {
        let chars = collect_chars(code);
        if chars.len() as u64 == u64::MAX {
            return None;
        }
        let r = Code { line_cursor: 1, chars, pos: 0, column_cursor: 1, column_start: 1 };
        assert(r@.rest =~= code@);
        Some(r)
    }

    /// Consumes one character and moves the position past it.
    pub fn next(&mut self) -> (r: Option<char>)
        ensures
            r == old(self)@.front(),
            final(self)@ == old(self)@.step(),
            final(self)@.wf(),
    {
        proof {
            use_type_invariant(&*self);
        }
        if self.pos >= self.chars.len() {
            return None;
        }
        let ch = self.chars[self.pos];
        self.pos = self.pos + 1;
        if is_line_break(ch) {
            self.line_cursor = self.line_cursor + 1;
            self.column_cursor = 1;
        } else {
            self.column_cursor = self.column_cursor + 1;
        }
        assert(self@.rest =~= old(self)@.rest.drop_first());
        Some(ch)
    }

    /// The next character, which stays in place.
    pub fn peek(&mut self) -> (r: Option<char>)
        ensures
            r == old(self)@.front(),
            *final(self) == *old(self),
            final(self)@.wf(),
    {
        proof {
            use_type_invariant(&*self);
        }
        if self.pos < self.chars.len() {
            Some(self.chars[self.pos])
        } else {
            None
        }
    }

    /// Line of the next character, counted from 1.
    pub fn line_cursor(&self) -> (r: u64)
        ensures
            r == self@.line,
    {
        self.line_cursor
    }

    /// Column of the next character, counted from 1.
    pub fn column_cursor(&self) -> (r: u64)
        ensures
            r == self@.column,
    {
        self.column_cursor
    }

    /// Column at which the current lexeme began.
    pub fn column_start(&self) -> (r: u64)
        ensures
            r == self@.column_start,
    {
        self.column_start
    }

    /// Records the current column as the start of a lexeme.
    pub fn set_column_start(&mut self)
        ensures
            final(self)@ == old(self)@.mark(),
    {
        proof {
            use_type_invariant(&*self);
        }
        self.column_start = self.column_cursor;
    }
}

} // verus!
