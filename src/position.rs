//! Line and column positions in a source text.
use vstd::prelude::*;
use crate::text::string_of_chars;

verus! {

/// The character of decimal digit `d`.
pub open spec fn digit_char(d: nat) -> char {
    if d == 0 {
        '0'
    } else if d == 1 {
        '1'
    } else if d == 2 {
        '2'
    } else if d == 3 {
        '3'
    } else if d == 4 {
        '4'
    } else if d == 5 {
        '5'
    } else if d == 6 {
        '6'
    } else if d == 7 {
        '7'
    } else if d == 8 {
        '8'
    } else {
        '9'
    }
}

/// The decimal digits of `n`, most significant first.
pub open spec fn decimal(n: nat) -> Seq<char>
    decreases n,
{
    if n < 10 {
        seq![digit_char(n)]
    } else {
        decimal(n / 10).push(digit_char(n % 10))
    }
}

fn digit(d: usize) -> (r: char)
    requires
        d < 10,
    ensures
        r == digit_char(d as nat),
{
    match d {
        0 => '0',
        1 => '1',
        2 => '2',
        3 => '3',
        4 => '4',
        5 => '5',
        6 => '6',
        7 => '7',
        8 => '8',
        _ => '9',
    }
}

/// Appends the decimal digits of `n` to `out`.
pub fn push_decimal(out: &mut Vec<char>, n: usize)
    ensures
        final(out)@ == old(out)@ + decimal(n as nat),
    decreases n,
{
    if n < 10 {
        out.push(digit(n));
        assert(final(out)@ =~= old(out)@ + decimal(n as nat));
    } else {
        push_decimal(out, n / 10);
        out.push(digit(n % 10));
        assert(out@ =~= old(out)@ + decimal(n as nat));
    }
}

/// A position in the source: a line and a column, both counted from 1.
#[derive(Debug, Clone, Copy, PartialEq, Eq, Structural)]
pub struct Position {
    pub line: usize,
    pub col: usize,
}

impl Position {
    /// The start of a source: line 1, column 1.
    pub fn new() -> (r: Position)
        ensures
            r.line == 1,
            r.col == 1,
    {
        Position { line: 1, col: 1 }
    }

    /// Column number.
    pub fn col(&self) -> (r: usize)
        ensures
            r == self.col,
    {
        self.col
    }

    /// Line number.
    pub fn line(&self) -> (r: usize)
        ensures
            r == self.line,
    {
        self.line
    }

    pub fn set(&mut self, pos: Position)
        ensures
            *final(self) == pos,
    {
        self.line = pos.line;
        self.col = pos.col;
    }

    /// Moves one column to the right.
    pub fn inc_col(&mut self)
        requires
            old(self).col < usize::MAX,
        ensures
            final(self).line == old(self).line,
            final(self).col == old(self).col + 1,
    {
        self.col = self.col + 1;
    }

    /// Moves to the first column of the next line.
    pub fn inc_line(&mut self)
        requires
            old(self).line < usize::MAX,
        ensures
            final(self).line == old(self).line + 1,
            final(self).col == 1,
    {
        self.line = self.line + 1;
        self.col = 1;
    }

    /// The position written as ` [line, col]`.
    pub fn to_string(&self) -> (r: String)
        ensures
            r@ == seq![' ', '['] + decimal(self.line as nat) + seq![',', ' '] + decimal(self.col as nat) + seq![']'],
    {
        let mut v: Vec<char> = Vec::new();
        v.push(' ');
        v.push('[');
        push_decimal(&mut v, self.line);
        v.push(',');
        v.push(' ');
        push_decimal(&mut v, self.col);
        v.push(']');
        assert(v@ =~= seq![' ', '['] + decimal(self.line as nat) + seq![',', ' '] + decimal(self.col as nat) + seq![']']);
        string_of_chars(v.as_slice())
    }

    /// Returns to line 1, column 1.
    pub fn clear(&mut self)
        ensures
            final(self).line == 1,
            final(self).col == 1,
    {
        self.line = 1;
        self.col = 1;
    }
}

} // verus!
