//! The input cursor: a reader over the characters of a text that looks one
//! character ahead, counts lines, and can replay the character it
//! delivered last.

use vstd::prelude::*;
use crate::text::to_chars;

verus! {

/// A blank that the grammar skips between tokens.
pub open spec fn is_space(c: char) -> bool {
    c == ' ' || c == '\t' || c == '\r' || c == '\n'
}

/// The first position at or after `from` that holds no blank; the length
/// of the text if only blanks follow.
pub open spec fn skip_spaces(chars: Seq<char>, from: int) -> int
    decreases chars.len() - from,
{
    if 0 <= from < chars.len() && is_space(chars[from]) {
        skip_spaces(chars, from + 1)
    } else {
        from
    }
}

/// The first position at or after `from` that holds a line feed; the
/// length of the text if none follows.
pub open spec fn line_end(chars: Seq<char>, from: int) -> int
    decreases chars.len() - from,
{
    if 0 <= from < chars.len() && chars[from] != '\n' {
        line_end(chars, from + 1)
    } else {
        from
    }
}

/// How many of the first `count` characters of `pattern` the text matches
/// from `from` on, one after the other.
pub open spec fn matched(chars: Seq<char>, from: int, pattern: Seq<char>, count: int) -> int
    decreases pattern.len() - count,
{
    if 0 <= count < pattern.len() && 0 <= from + count < chars.len() && chars[from + count]
        == pattern[count] {
        matched(chars, from, pattern, count + 1)
    } else {
        count
    }
}

/// The number of line feeds among the first `upto` characters.
pub open spec fn newlines(chars: Seq<char>, upto: int) -> int
    decreases upto,
{
    if upto <= 0 || upto > chars.len() {
        0
    } else if chars[upto - 1] == '\n' {
        newlines(chars, upto - 1) + 1
    } else {
        newlines(chars, upto - 1)
    }
}

/// The number of the line that position `pos` lies on, counted from 1. The
/// count stops at the largest `u64`, which no text in memory reaches.
pub open spec fn line_number(chars: Seq<char>, pos: int) -> int {
    if newlines(chars, pos) + 1 < u64::MAX {
        newlines(chars, pos) + 1
    } else {
        u64::MAX as int
    }
}

/// Skipping blanks moves forward, stays in the text, and stops before a
/// character that is no blank.
pub proof fn lemma_skip_spaces(chars: Seq<char>, from: int)
    ensures
        from <= skip_spaces(chars, from),
        from <= chars.len() ==> skip_spaces(chars, from) <= chars.len(),
        from >= chars.len() ==> skip_spaces(chars, from) == from,
        0 <= skip_spaces(chars, from) < chars.len() ==> !is_space(
            chars[skip_spaces(chars, from)],
        ),
        forall|i: int| from <= i < skip_spaces(chars, from) ==> is_space(#[trigger] chars[i]),
    decreases chars.len() - from,
{
    if 0 <= from < chars.len() && is_space(chars[from]) {
        lemma_skip_spaces(chars, from + 1);
    }
}

/// The end of a line lies at or after where the search starts, in the
/// text, and no line feed lies between.
pub proof fn lemma_line_end(chars: Seq<char>, from: int)
    ensures
        from <= line_end(chars, from),
        from <= chars.len() ==> line_end(chars, from) <= chars.len(),
        0 <= line_end(chars, from) < chars.len() ==> chars[line_end(chars, from)] == '\n',
        forall|i: int| 0 <= from <= i < line_end(chars, from) ==> #[trigger] chars[i] != '\n',
    decreases chars.len() - from,
{
    if 0 <= from < chars.len() && chars[from] != '\n' {
        lemma_line_end(chars, from + 1);
    }
}

/// The count of matched characters lies between where it starts and the
/// length of the pattern, and the text holds that many more characters.
pub proof fn lemma_matched(chars: Seq<char>, from: int, pattern: Seq<char>, count: int)
    requires
        0 <= count <= pattern.len(),
        0 <= from <= chars.len(),
        from + count <= chars.len(),
    ensures
        count <= matched(chars, from, pattern, count) <= pattern.len(),
        from + matched(chars, from, pattern, count) <= chars.len(),
    decreases pattern.len() - count,
{
    if count < pattern.len() && from + count < chars.len() && chars[from + count]
        == pattern[count] {
        lemma_matched(chars, from, pattern, count + 1);
    }
}

/// The state of a cursor as plain values.
pub ghost struct InputView {
    /// The whole text.
    pub chars: Seq<char>,
    /// How many characters the cursor has moved past.
    pub pos: int,
    /// The character at `pos` was delivered and the next read moves past
    /// it.
    pub consumed: bool,
    /// A read has moved past the end of the text.
    pub end: bool,
}

impl InputView {
    /// The text has a length that a machine can hold, the position lies
    /// in the text or at its end, and once a read has moved past the end
    /// nothing is left to replay.
    pub open spec fn wf(self) -> bool {
        &&& self.chars.len() <= usize::MAX
        &&& 0 <= self.pos <= self.chars.len()
        &&& self.end ==> self.pos == self.chars.len() && !self.consumed
    }

    /// The position of the character that the next read delivers; the
    /// length of the text when that read finds the end.
    pub open spec fn cursor(self) -> int {
        if self.consumed && self.pos < self.chars.len() {
            self.pos + 1
        } else {
            self.pos
        }
    }

    /// Whether `end` is set once the next read has found the end of the
    /// text.
    pub open spec fn ends_after_read(self) -> bool {
        self.end || (self.consumed && self.pos >= self.chars.len())
    }

    /// The line that the cursor is on.
    pub open spec fn line(self) -> int {
        line_number(self.chars, self.pos)
    }

    /// The same text with the cursor at `pos`, and `end` as a read at the
    /// end of the text leaves it.
    pub open spec fn moved(self, pos: int, consumed: bool) -> InputView {
        InputView { chars: self.chars, pos, consumed, end: self.ends_after_read() }
    }

    /// One read: the character delivered and the state after it.
    pub open spec fn getc(self) -> (Option<char>, InputView) {
        let c = self.cursor();
        if c < self.chars.len() {
            (Some(self.chars[c]), self.moved(c, true))
        } else {
            (None, self.moved(c, !self.ends_after_read()))
        }
    }

    /// The state after the last delivered character was pushed back.
    pub open spec fn ungetc(self) -> InputView {
        InputView { consumed: false, ..self }
    }

    /// The character that `ungetc` would make the next read deliver again.
    pub open spec fn held(self) -> Option<char> {
        if self.consumed && 0 <= self.pos < self.chars.len() {
            Some(self.chars[self.pos])
        } else {
            None
        }
    }

    /// The state after blanks were skipped: before the first character
    /// that is none.
    pub open spec fn skip_ws(self) -> InputView {
        self.moved(skip_spaces(self.chars, self.cursor()), false)
    }

    /// Whether `ex` is the first character after the blanks, and the state
    /// after it was looked for: past it if so, before it if not.
    pub open spec fn expect(self, ex: char) -> (bool, InputView) {
        let p = skip_spaces(self.chars, self.cursor());
        if p < self.chars.len() && self.chars[p] == ex {
            (true, self.moved(p, true))
        } else {
            (false, self.moved(p, false))
        }
    }

    /// Whether the text goes on with `pattern`, and the state after the
    /// comparison: on the last character of the pattern if so, before the
    /// first character that differs if not.
    pub open spec fn does_match(self, pattern: Seq<char>) -> (bool, InputView) {
        let n = matched(self.chars, self.cursor(), pattern, 0);
        if pattern.len() == 0 {
            (true, self)
        } else if n == pattern.len() {
            (true, self.moved(self.cursor() + n - 1, true))
        } else {
            (false, self.moved(self.cursor() + n, false))
        }
    }

    /// The rest of the line and the state after it was read: on the line
    /// feed that ends it, or past the end of the text.
    pub open spec fn read_line(self) -> (Seq<char>, InputView) {
        let c = self.cursor();
        let e = line_end(self.chars, c);
        (
            self.chars.subrange(c, e),
            self.moved(e, e < self.chars.len() || !self.ends_after_read()),
        )
    }
}

/// One step of pushback: after a read was pushed back, the next read
/// delivers the same character again, and pushing back twice is pushing
/// back once.
pub proof fn law_pushback_replays(state: InputView)
    requires
        state.wf(),
    ensures
        state.getc().1.ungetc().getc().0 == state.getc().0,
        state.ungetc().ungetc() == state.ungetc(),
{
}

/// Where a cursor stands.
#[derive(Clone, Copy)]
struct Place {
    pos: usize,
    end: bool,
    consumed: bool,
    line: u64,
}

/// A cursor over a text.
pub struct Input {
    chars: Vec<char>,
    place: Place,
}

impl View for Input {
    type V = InputView;

    closed spec fn view(&self) -> InputView {
        InputView {
            chars: self.chars@,
            pos: self.place.pos as int,
            consumed: self.place.consumed,
            end: self.place.end,
        }
    }
}

impl Input {
    /// The line counter agrees with the position.
    pub closed spec fn line_kept(self) -> bool {
        self.place.line == self@.line()
    }

    /// What holds of every cursor.
    #[verifier::type_invariant]
    pub open spec fn inv(self) -> bool {
        self@.wf() && self.line_kept()
    }

    /// A cursor before the first character of `s`, on line 1.
    pub fn new(s: &str) -> (r: Input)
        ensures
            r@ == (InputView { chars: s@, pos: 0, consumed: false, end: false }),
    {
        let chars = to_chars(s);
        assert(chars@.len() == chars.len());
        Input { chars, place: Place { pos: 0, end: false, consumed: false, line: 1 } }
    }

    /// The number of the line that the cursor is on.
    pub fn line(&self) -> (r: u64)
        ensures
            r == self@.line(),
    {
        proof {
            use_type_invariant(self);
        }
        self.place.line
    }

    /// Delivers the next character, or `None` at the end of the text.
    /// After `ungetc` it delivers the same character once more.
    pub fn getc(&mut self) -> (r: Option<char>)
        ensures
            (r, final(self)@) == old(self)@.getc(),
    {
        proof {
            use_type_invariant(&*self);
        }
        let mut place = self.place;
        if place.consumed {
            if place.pos < self.chars.len() {
                if self.chars[place.pos] == '\n' && place.line < u64::MAX {
                    place.line = place.line + 1;
                }
                place.pos = place.pos + 1;
            } else {
                place.end = true;
            }
        }
        if place.end {
            place.consumed = false;
            self.place = place;
            return None;
        }
        place.consumed = true;
        self.place = place;
        if place.pos < self.chars.len() {
            Some(self.chars[place.pos])
        } else {
            None
        }
    }

    /// Pushes the last delivered character back.
    pub fn ungetc(&mut self)
        ensures
            final(self)@ == old(self)@.ungetc(),
    {
        proof {
            use_type_invariant(&*self);
        }
        let mut place = self.place;
        place.consumed = false;
        self.place = place;
    }

    /// Reads the rest of the current line and returns it without the line
    /// feed that ends it.
    pub fn read_line(&mut self) -> (r: String)
        ensures
            (r@, final(self)@) == old(self)@.read_line(),
    {
        let mut buf = String::new();
        proof {
            use_type_invariant(&*self);
            assert(buf@ =~= self@.chars.subrange(self@.cursor(), self@.cursor()));
        }
        loop
            invariant
                self@.wf(),
                self@.chars == old(self)@.chars,
                self@.ends_after_read() == old(self)@.ends_after_read(),
                old(self)@.cursor() <= self@.cursor() <= self@.chars.len(),
                line_end(self@.chars, self@.cursor()) == line_end(self@.chars, old(self)@.cursor()),
                buf@ == self@.chars.subrange(old(self)@.cursor(), self@.cursor()),
            decreases self@.chars.len() - self@.cursor(),
        {
            proof {
                use_type_invariant(&*self);
            }
            match self.getc() {
                None => {
                    return buf;
                },
                Some(c) => {
                    if c == '\n' {
                        return buf;
                    }
                    buf.push(c);
                    proof {
                        use_type_invariant(&*self);
                        assert(buf@ =~= self@.chars.subrange(
                            old(self)@.cursor(),
                            self@.cursor(),
                        ));
                    }
                },
            }
        }
    }

    /// Skips blanks: the next read delivers the first character that is
    /// none.
    pub fn skip_ws(&mut self)
        ensures
            final(self)@ == old(self)@.skip_ws(),
    {
        proof {
            use_type_invariant(&*self);
        }
        loop
            invariant
                self@.wf(),
                self@.chars == old(self)@.chars,
                self@.ends_after_read() == old(self)@.ends_after_read(),
                self@.cursor() <= self@.chars.len(),
                skip_spaces(self@.chars, self@.cursor()) == skip_spaces(
                    self@.chars,
                    old(self)@.cursor(),
                ),
            decreases self@.chars.len() - self@.cursor(),
        {
            proof {
                use_type_invariant(&*self);
            }
            match self.getc() {
                Some(c) => {
                    if !(c == ' ' || c == '\t' || c == '\r' || c == '\n') {
                        self.ungetc();
                        return ;
                    }
                    proof {
                        use_type_invariant(&*self);
                    }
                },
                None => {
                    self.ungetc();
                    return ;
                },
            }
        }
    }

    /// Skips blanks, then reads `ex` if it is the next character. Returns
    /// whether it was; if not, nothing after the blanks is read.
    pub fn expect(&mut self, ex: char) -> (r: bool)
        ensures
            (r, final(self)@) == old(self)@.expect(ex),
    {
        proof {
            use_type_invariant(&*self);
        }
        self.skip_ws();
        proof {
            use_type_invariant(&*self);
        }
        match self.getc() {
            Some(c) => {
                if c == ex {
                    true
                } else {
                    self.ungetc();
                    false
                }
            },
            None => {
                self.ungetc();
                false
            },
        }
    }

    /// Reads the characters of `pattern` one after the other. At the first
    /// that the text does not have, it pushes the character read in its
    /// place back and returns `false`; those read before stay read.
    pub fn does_match(&mut self, pattern: &str) -> (r: bool)
        ensures
            (r, final(self)@) == old(self)@.does_match(pattern@),
    {
        proof {
            use_type_invariant(&*self);
        }
        let want = to_chars(pattern);
        let mut i: usize = 0;
        while i < want.len()
            invariant
                self@.wf(),
                want@ == pattern@,
                i <= want.len(),
                self@.chars == old(self)@.chars,
                matched(self@.chars, old(self)@.cursor(), want@, 0) == matched(
                    self@.chars,
                    old(self)@.cursor(),
                    want@,
                    i as int,
                ),
                i == 0 ==> self@ == old(self)@,
                i > 0 ==> self@ == old(self)@.moved(old(self)@.cursor() + i - 1, true),
                i > 0 ==> old(self)@.cursor() + i - 1 < self@.chars.len(),
            decreases want.len() - i,
        {
            proof {
                use_type_invariant(&*self);
            }
            match self.getc() {
                Some(c) => {
                    if c != want[i] {
                        self.ungetc();
                        return false;
                    }
                    proof {
                        use_type_invariant(&*self);
                    }
                },
                None => {
                    self.ungetc();
                    return false;
                },
            }
            i += 1;
        }
        true
    }

    /// The character that `ungetc` would replay.
    pub fn held(&self) -> (r: Option<char>)
        ensures
            r == self@.held(),
    {
        if self.place.consumed && self.place.pos < self.chars.len() {
            Some(self.chars[self.place.pos])
        } else {
            None
        }
    }
}

} // verus!
