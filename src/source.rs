//! The source reader: a character source with a lookahead buffer and
//! line/column tracking.
use vstd::prelude::*;
use crate::position::Position;
use crate::text::{chars_of, string_of_chars};

verus! {

/// The (line, column) reached after reading the first `c` characters of
/// the source `s`.  A `'\n'` starts a new line, and so does a `'\r'` that is
/// not followed by a `'\n'`; any other character, the `'\r'` of `"\r\n"`
/// included, moves one column on.
pub open spec fn position_at(s: Seq<char>, c: int) -> (int, int)
    decreases c,
{
    if c <= 0 {
        (1, 1)
    } else {
        let p = position_at(s, c - 1);
        let ch = s[c - 1];
        if ch == '\n' || (ch == '\r' && !(c < s.len() && s[c] == '\n')) {
            (p.0 + 1, 1)
        } else {
            (p.0, p.1 + 1)
        }
    }
}

pub proof fn lemma_position_bounds(s: Seq<char>, c: int)
    requires
        0 <= c,
    ensures
        1 <= position_at(s, c).0 <= c + 1,
        1 <= position_at(s, c).1 <= c + 1,
    decreases c,
{
    if c > 0 {
        lemma_position_bounds(s, c - 1);
    }
}

/// The character source of a parse.  Characters move from the source into a
/// lookahead buffer on demand and leave the buffer when consumed.
#[derive(Debug)]
pub struct SourceReader {
    src: Vec<char>,
    buf: Vec<char>,
    pos: Position,
    bufpos: usize,
}

impl SourceReader {
    /// All characters of the source.
    pub closed spec fn text(&self) -> Seq<char> {
        self.src@
    }

    /// How many characters have been consumed.
    pub closed spec fn consumed(&self) -> int {
        self.bufpos - self.buf@.len()
    }

    /// How many characters past the consumed ones are in the buffer.
    pub closed spec fn buffered(&self) -> int {
        self.buf@.len() as int
    }

    /// The current position.
    pub closed spec fn pos(&self) -> Position {
        self.pos
    }

    pub closed spec fn wf(&self) -> bool {
        &&& self.src@.len() < usize::MAX
        &&& self.bufpos <= self.src@.len()
        &&& self.buf@.len() <= self.bufpos
        &&& self.buf@ == self.src@.subrange(self.bufpos - self.buf@.len(), self.bufpos as int)
        &&& self.pos.line == position_at(self.src@, self.bufpos - self.buf@.len()).0
        &&& self.pos.col == position_at(self.src@, self.bufpos - self.buf@.len()).1
    }

    pub proof fn lemma_wf(&self)
        requires
            self.wf(),
        ensures
            0 <= self.consumed() <= self.consumed() + self.buffered() <= self.text().len(),
            self.text().len() < usize::MAX,
            self.pos().line == position_at(self.text(), self.consumed()).0,
            self.pos().col == position_at(self.text(), self.consumed()).1,
    {
    }

    /// A reader at the start of `source`.
    pub fn new(source: String) -> (r: SourceReader)
        requires
            source@.len() < usize::MAX,
        ensures
            r.wf(),
            r.text() == source@,
            r.consumed() == 0,
            r.buffered() == 0,
            r.pos() == (Position { line: 1, col: 1 }),
    {
        let src = chars_of(source.as_str());
        let r = SourceReader { src, buf: Vec::new(), pos: Position::new(), bufpos: 0 };
                assert(r.buf@ =~= r.src@.subrange(0, 0));
        r
    }

    /// Moves the next source character into the buffer and returns it with
    /// its index in the source, or `None` when every character is buffered.
    pub fn read(&mut self) -> (r: Option<(usize, char)>)
        requires
            old(self).wf(),
        ensures
            final(self).wf(),
            final(self).text() == old(self).text(),
            final(self).consumed() == old(self).consumed(),
            final(self).pos() == old(self).pos(),
            old(self).consumed() + old(self).buffered() < old(self).text().len() ==> r == Some(
                ((old(self).consumed() + old(self).buffered()) as usize, old(self).text()[old(self).consumed() + old(self).buffered()]),
            ) && final(self).buffered() == old(self).buffered() + 1,
            old(self).consumed() + old(self).buffered() >= old(self).text().len() ==> r.is_none()
                && final(self).buffered() == old(self).buffered(),
    {
        if self.bufpos >= self.src.len() {
            return None;
        }
        let i = self.bufpos;
        let c = self.src[i];
        self.buf.push(c);
        self.bufpos = self.bufpos + 1;
        assert(self.buf@ =~= self.src@.subrange(self.bufpos - self.buf@.len(), self.bufpos as int));
        Some((i, c))
    }

    /// The `count`-th character (counting from 1) after the consumed ones,
    /// or `None` past the end of the source.  Fills the buffer as needed.
    pub fn lookahead(&mut self, count: usize) -> (r: Option<char>)
        requires
            old(self).wf(),
            count >= 1,
        ensures
            final(self).wf(),
            final(self).text() == old(self).text(),
            final(self).consumed() == old(self).consumed(),
            final(self).pos() == old(self).pos(),
            final(self).buffered() >= old(self).buffered(),
            old(self).consumed() + count <= old(self).text().len() ==> r == Some(old(self).text()[old(self).consumed() + count - 1])
                && final(self).buffered() >= count,
            old(self).consumed() + count > old(self).text().len() ==> r.is_none(),
    {
        while self.buf.len() < count
            invariant
                self.wf(),
                self.src@ == old(self).src@,
                self.consumed() == old(self).consumed(),
                self.pos == old(self).pos,
                self.buffered() >= old(self).buffered(),
            decreases count - self.buf@.len(),
        {
            match self.read() {
                Some(_) => {},
                None => {
                    return None;
                },
            }
        }
        Some(self.buf[count - 1])
    }

    /// Index in the source of the next character not yet buffered.
    pub fn get_abs_pos(&self) -> (r: usize)
        requires
            self.wf(),
        ensures
            r == self.consumed() + self.buffered(),
    {
        self.bufpos
    }

    /// Number of characters in the lookahead buffer.
    pub fn get_buf_len(&self) -> (r: usize)
        ensures
            r == self.buffered(),
    {
        self.buf.len()
    }

    /// The first `end` buffered characters.
    pub fn get_buf_slice_to(&self, end: usize) -> (r: String)
        requires
            self.wf(),
            end <= self.buffered(),
        ensures
            r@ == self.text().subrange(self.consumed(), self.consumed() + end),
    {
        let mut v: Vec<char> = Vec::new();
        let mut i: usize = 0;
        while i < end
            invariant
                0 <= i <= end <= self.buf@.len(),
                v@ == self.buf@.subrange(0, i as int),
            decreases end - i,
        {
            v.push(self.buf[i]);
            i = i + 1;
            assert(v@ =~= self.buf@.subrange(0, i as int));
        }
        assert(self.buf@.subrange(0, end as int) =~= self.src@.subrange(self.consumed(), self.consumed() + end));
        string_of_chars(v.as_slice())
    }

    /// The `count`-th character (counting from 1) past the buffered ones,
    /// without moving anything.
    pub fn peek(&self, count: usize) -> (r: Option<char>)
        requires
            self.wf(),
            count >= 1,
        ensures
            self.consumed() + self.buffered() + count <= self.text().len() ==> r == Some(
                self.text()[self.consumed() + self.buffered() + count - 1],
            ),
            self.consumed() + self.buffered() + count > self.text().len() ==> r.is_none(),
    {
        if count <= self.src.len() - self.bufpos {
            Some(self.src[self.bufpos + count - 1])
        } else {
            None
        }
    }

    /// Consumes the first `count` buffered characters and moves the position
    /// over them.  Nothing happens unless `0 < count <= buffered`.
    pub fn consume_buf(&mut self, count: usize)
        requires
            old(self).wf(),
        ensures
            final(self).wf(),
            final(self).text() == old(self).text(),
            0 < count <= old(self).buffered() ==> final(self).consumed() == old(self).consumed() + count
                && final(self).buffered() == old(self).buffered() - count,
            !(0 < count <= old(self).buffered()) ==> final(self).consumed() == old(self).consumed()
                && final(self).buffered() == old(self).buffered() && final(self).pos() == old(self).pos(),
    {
        if count == 0 || count > self.buf.len() {
            return;
        }
        let start = self.bufpos - self.buf.len();
        let mut k: usize = 0;
        while k < count
            invariant
                0 <= k <= count <= self.buf@.len(),
                self.src@.len() < usize::MAX,
                self.bufpos <= self.src@.len(),
                self.buf@.len() <= self.bufpos,
                self.buf@ == self.src@.subrange(self.bufpos - self.buf@.len(), self.bufpos as int),
                self.src@ == old(self).src@,
                self.buf@ == old(self).buf@,
                self.bufpos == old(self).bufpos,
                start == self.bufpos - self.buf@.len(),
                self.pos.line == position_at(self.src@, start + k).0,
                self.pos.col == position_at(self.src@, start + k).1,
            decreases count - k,
        {
            let c = self.src[start + k];
            proof {
                lemma_position_bounds(self.src@, start + k);
            }
            let crlf = c == '\r' && start + k + 1 < self.src.len() && self.src[start + k + 1] == '\n';
            if c == '\n' || (c == '\r' && !crlf) {
                self.pos.line = self.pos.line + 1;
                self.pos.col = 1;
            } else {
                self.pos.col = self.pos.col + 1;
            }
            k = k + 1;
        }
        let mut rest: Vec<char> = Vec::new();
        let mut j: usize = count;
        while j < self.buf.len()
            invariant
                count <= j <= self.buf@.len(),
                rest@ == self.buf@.subrange(count as int, j as int),
            decreases self.buf@.len() - j,
        {
            rest.push(self.buf[j]);
            j = j + 1;
            assert(rest@ =~= self.buf@.subrange(count as int, j as int));
        }
        self.buf = rest;
        assert(self.buf@ =~= self.src@.subrange(self.bufpos - self.buf@.len(), self.bufpos as int));
    }

    /// Drops the source and returns to the start.
    pub fn clear(&mut self)
        ensures
            final(self).wf(),
            final(self).text().len() == 0,
            final(self).consumed() == 0,
            final(self).buffered() == 0,
            final(self).pos() == (Position { line: 1, col: 1 }),
    {
        self.src.clear();
        self.buf.clear();
        self.pos.clear();
        self.bufpos = 0;
                assert(self.buf@ =~= self.src@.subrange(0, 0));
    }

    /// Replaces the source by `source` and returns to its start.
    pub fn load(&mut self, source: String)
        requires
            source@.len() < usize::MAX,
        ensures
            final(self).wf(),
            final(self).text() == source@,
            final(self).consumed() == 0,
            final(self).buffered() == 0,
            final(self).pos() == (Position { line: 1, col: 1 }),
    {
        *self = SourceReader::new(source);
    }

    /// Returns to the start of the same source.
    pub fn rewind(&mut self)
        requires
            old(self).wf(),
        ensures
            final(self).wf(),
            final(self).text() == old(self).text(),
            final(self).consumed() == 0,
            final(self).buffered() == 0,
            final(self).pos() == (Position { line: 1, col: 1 }),
    {
        self.buf.clear();
        self.pos.clear();
        self.bufpos = 0;
                assert(self.buf@ =~= self.src@.subrange(0, 0));
    }

    /// Number of characters in the source.
    pub fn len(&self) -> (r: usize)
        ensures
            r == self.text().len(),
    {
        self.src.len()
    }

    /// The whole source text.
    pub fn to_string(&self) -> (r: String)
        ensures
            r@ == self.text(),
    {
        string_of_chars(self.src.as_slice())
    }

    /// The current position.
    pub fn position(&self) -> (r: Position)
        ensures
            r == self.pos(),
    {
        self.pos
    }

    /// Column of the current position.
    pub fn col(&self) -> (r: usize)
        ensures
            r == self.pos().col,
    {
        self.pos.col
    }

    /// Line of the current position.
    pub fn line(&self) -> (r: usize)
        ensures
            r == self.pos().line,
    {
        self.pos.line
    }
}

} // verus!
