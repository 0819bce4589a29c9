//! The grammar, as functions from a text and a position to what is read
//! there and where the reading stops.
//!
//! A position is where the cursor's next read delivers from. A reading
//! stops at a place: the position of the last character it was handed, and
//! whether that character stays consumed or was pushed back.

use vstd::prelude::*;
use crate::input::{lemma_matched, lemma_skip_spaces, line_end, line_number, matched, skip_spaces};
use crate::model::{entries_insert, Entry, Json};
use crate::number::{is_number_char, is_number_start, table_lookup, TableEntry};

verus! {

/// The end of the run of number characters that starts at `from`.
pub open spec fn token_end(chars: Seq<char>, from: int) -> int
    decreases chars.len() - from,
{
    if 0 <= from < chars.len() && is_number_char(chars[from]) {
        token_end(chars, from + 1)
    } else {
        from
    }
}

/// A character that may not stand in a string as it is: one before the
/// space.
pub open spec fn is_control(c: char) -> bool {
    !(' ' <= c)
}

/// The character that an escape stands for, if the escape is known.
pub open spec fn unescape(c: char) -> Option<char> {
    if c == '"' {
        Some('"')
    } else if c == '\\' {
        Some('\\')
    } else if c == '/' {
        Some('/')
    } else if c == 'n' {
        Some('\n')
    } else if c == 'r' {
        Some('\r')
    } else if c == 't' {
        Some('\t')
    } else {
        None
    }
}

/// What reading the inside of a string gives.
pub ghost struct Scanned {
    /// The characters read up to where the scan stops.
    pub text: Seq<char>,
    /// The position of the character that the scan stops on: the closing
    /// quote, or the character that cannot stand there.
    pub pos: int,
    /// The scan found the closing quote.
    pub closed: bool,
    /// The character at `pos` stays consumed: it is the closing quote, or
    /// what follows a backslash.
    pub consumed: bool,
}

impl Scanned {
    /// The same scan with `c` read before it.
    pub open spec fn after(self, c: char) -> Scanned {
        Scanned { text: seq![c] + self.text, ..self }
    }
}

/// Reads the inside of a string from `from`, the position after the
/// opening quote. A control character or the end of the text stops the
/// scan and is pushed back; after a backslash, a character that is no
/// known escape stops it, as does the end of the text.
pub open spec fn scan_string(chars: Seq<char>, from: int) -> Scanned
    decreases chars.len() - from,
{
    if from < 0 || from >= chars.len() {
        Scanned { text: Seq::empty(), pos: from, closed: false, consumed: false }
    } else if is_control(chars[from]) {
        Scanned { text: Seq::empty(), pos: from, closed: false, consumed: false }
    } else if chars[from] == '"' {
        Scanned { text: Seq::empty(), pos: from, closed: true, consumed: true }
    } else if chars[from] == '\\' {
        if from + 1 >= chars.len() {
            Scanned { text: Seq::empty(), pos: from + 1, closed: false, consumed: true }
        } else {
            match unescape(chars[from + 1]) {
                Some(c) => scan_string(chars, from + 2).after(c),
                None => Scanned {
                    text: Seq::empty(),
                    pos: from + 1,
                    closed: false,
                    consumed: true,
                },
            }
        }
    } else {
        scan_string(chars, from + 1).after(chars[from])
    }
}

/// A scan stops at or after where it starts, and in the text if it starts
/// there.
pub proof fn lemma_scan_string(chars: Seq<char>, from: int)
    ensures
        from <= scan_string(chars, from).pos,
        0 <= from <= chars.len() ==> scan_string(chars, from).pos <= chars.len(),
        scan_string(chars, from).closed ==> scan_string(chars, from).consumed && 0
            <= scan_string(chars, from).pos < chars.len(),
    decreases chars.len() - from,
{
    if 0 <= from < chars.len() && !is_control(chars[from]) && chars[from] != '"' {
        if chars[from] == '\\' {
            if from + 1 < chars.len() && unescape(chars[from + 1]) is Some {
                lemma_scan_string(chars, from + 2);
            }
        } else {
            lemma_scan_string(chars, from + 1);
        }
    }
}

/// A number token ends at or after where it starts, in the text, and
/// before a character that is no number character.
pub proof fn lemma_token_end(chars: Seq<char>, from: int)
    ensures
        from <= token_end(chars, from),
        from <= chars.len() ==> token_end(chars, from) <= chars.len(),
        0 <= token_end(chars, from) < chars.len() ==> !is_number_char(
            chars[token_end(chars, from)],
        ),
        forall|i: int|
            0 <= from <= i < token_end(chars, from) ==> is_number_char(#[trigger] chars[i]),
    decreases chars.len() - from,
{
    if 0 <= from < chars.len() && is_number_char(chars[from]) {
        lemma_token_end(chars, from + 1);
    }
}

/// The runs of number characters in the text from `from` on, each as long
/// as it can be, in the order in which they stand.
pub open spec fn runs(chars: Seq<char>, from: int) -> Seq<Seq<char>>
    decreases chars.len() - from,
{
    if from < 0 || from >= chars.len() {
        Seq::empty()
    } else if is_number_char(chars[from]) {
        proof {
            lemma_token_end(chars, from + 1);
        }
        seq![chars.subrange(from, token_end(chars, from))] + runs(chars, token_end(chars, from))
    } else {
        runs(chars, from + 1)
    }
}

/// What reading a value gives.
pub ghost enum Parsed {
    /// A value was read. The cursor stands at `pos`: on the last character
    /// of the value if `consumed`, before the character after it if not.
    Done { value: Json, pos: int, consumed: bool },
    /// No value can be read. The cursor stands at `pos`, the position of
    /// the character that cannot be there. `left` is what the reading has
    /// put into the slot of its context before it failed: the items of an
    /// array or the entries of an object read so far, and nothing where
    /// the failure came before anything was reported.
    Failed { pos: int, consumed: bool, left: Option<Json> },
}

impl Parsed {
    /// The position at which the cursor stands.
    pub open spec fn pos(self) -> int {
        match self {
            Parsed::Done { pos, .. } => pos,
            Parsed::Failed { pos, .. } => pos,
        }
    }

    /// Whether the character at that position stays consumed.
    pub open spec fn consumed(self) -> bool {
        match self {
            Parsed::Done { consumed, .. } => consumed,
            Parsed::Failed { consumed, .. } => consumed,
        }
    }

    /// The position from which the next read delivers.
    pub open spec fn next(self) -> int {
        if self.consumed() {
            self.pos() + 1
        } else {
            self.pos()
        }
    }

    /// What the slot of the context holds after the reading, if it held
    /// `before`: the value read; or what a failed reading has left there;
    /// or `before`, where it failed before it reported anything.
    pub open spec fn slot(self, before: Json) -> Json {
        match self {
            Parsed::Done { value, .. } => value,
            Parsed::Failed { left: Some(partial), .. } => partial,
            Parsed::Failed { left: None, .. } => before,
        }
    }
}

/// Reads the rest of a literal: `pattern` from `from`, for `value`.
pub open spec fn literal(chars: Seq<char>, from: int, pattern: Seq<char>, value: Json) -> Parsed {
    let n = matched(chars, from, pattern, 0);
    if n == pattern.len() {
        Parsed::Done { value, pos: from + n - 1, consumed: true }
    } else {
        Parsed::Failed { pos: from + n, consumed: false, left: None }
    }
}

/// Reads a number token from `from` and asks the table what it denotes.
/// The token is the longest run of number characters; the character after
/// it is pushed back.
pub open spec fn number(chars: Seq<char>, from: int, table: Seq<TableEntry>) -> Parsed {
    let end = token_end(chars, from);
    if end <= from {
        Parsed::Failed { pos: end, consumed: false, left: None }
    } else {
        match table_lookup(table, chars.subrange(from, end), 0) {
            Some(n) => Parsed::Done { value: Json::Number(n), pos: end, consumed: false },
            None => Parsed::Failed { pos: end, consumed: false, left: None },
        }
    }
}

/// Reads a string from `from`, the position after the opening quote.
pub open spec fn string(chars: Seq<char>, from: int) -> Parsed {
    let scan = scan_string(chars, from);
    if scan.closed {
        Parsed::Done { value: Json::String(scan.text), pos: scan.pos, consumed: true }
    } else {
        Parsed::Failed { pos: scan.pos, consumed: scan.consumed, left: None }
    }
}

/// Reads one value from `from`: blanks, then the production that the first
/// character selects.
pub open spec fn value(chars: Seq<char>, from: int, table: Seq<TableEntry>) -> Parsed
    decreases chars.len() - from, 0nat,
{
    let p = skip_spaces(chars, from);
    proof {
        lemma_skip_spaces(chars, from);
    }
    if p < 0 || p >= chars.len() {
        Parsed::Failed { pos: p, consumed: false, left: None }
    } else if chars[p] == 'n' {
        literal(chars, p + 1, "ull"@, Json::Null)
    } else if chars[p] == 't' {
        literal(chars, p + 1, "rue"@, Json::Boolean(true))
    } else if chars[p] == 'f' {
        literal(chars, p + 1, "alse"@, Json::Boolean(false))
    } else if chars[p] == '[' {
        array(chars, p + 1, table)
    } else if chars[p] == '{' {
        object(chars, p + 1, table)
    } else if is_number_start(chars[p]) {
        number(chars, p, table)
    } else if chars[p] == '"' {
        string(chars, p + 1)
    } else {
        Parsed::Failed { pos: p, consumed: false, left: None }
    }
}

/// Reads an array from `from`, the position after the opening bracket.
pub open spec fn array(chars: Seq<char>, from: int, table: Seq<TableEntry>) -> Parsed
    decreases chars.len() - from, 2nat,
{
    let p = skip_spaces(chars, from);
    proof {
        lemma_skip_spaces(chars, from);
    }
    if p < chars.len() && chars[p] == ']' {
        Parsed::Done { value: Json::Array(Seq::empty()), pos: p, consumed: true }
    } else {
        items(chars, p, table, Seq::empty())
    }
}

/// Reads the items of an array from `from` on, after the items `acc`, up
/// to the closing bracket. A comma always lies after `from`, since a value
/// takes at least one character (`lemma_value_within`); the test for it
/// is there for the recursion to be seen to end.
pub open spec fn items(
    chars: Seq<char>,
    from: int,
    table: Seq<TableEntry>,
    acc: Seq<Json>,
) -> Parsed
    decreases chars.len() - from, 1nat,
{
    match value(chars, from, table) {
        Parsed::Failed { pos, consumed, .. } => Parsed::Failed {
            pos,
            consumed,
            left: Some(Json::Array(acc)),
        },
        Parsed::Done { value: item, pos, consumed } => {
            let q = skip_spaces(chars, if consumed { pos + 1 } else { pos });
            if q < chars.len() && chars[q] == ',' && q >= from {
                items(chars, q + 1, table, acc.push(item))
            } else if q < chars.len() && chars[q] == ']' {
                Parsed::Done { value: Json::Array(acc.push(item)), pos: q, consumed: true }
            } else {
                Parsed::Failed { pos: q, consumed: false, left: Some(Json::Array(acc.push(item))) }
            }
        },
    }
}

/// Reads an object from `from`, the position after the opening brace.
pub open spec fn object(chars: Seq<char>, from: int, table: Seq<TableEntry>) -> Parsed
    decreases chars.len() - from, 2nat,
{
    let p = skip_spaces(chars, from);
    proof {
        lemma_skip_spaces(chars, from);
    }
    if p < chars.len() && chars[p] == '}' {
        Parsed::Done { value: Json::Object(Seq::empty()), pos: p, consumed: true }
    } else {
        members(chars, p, table, Seq::empty())
    }
}

/// Reads the members of an object from `from` on, after the entries
/// `acc`, up to the closing brace. A key read again replaces the value
/// read for it before. As in `items`, the comma always lies after `from`.
pub open spec fn members(
    chars: Seq<char>,
    from: int,
    table: Seq<TableEntry>,
    acc: Seq<Entry>,
) -> Parsed
    decreases chars.len() - from, 1nat,
{
    let p = skip_spaces(chars, from);
    if !(0 <= p < chars.len() && chars[p] == '"') {
        Parsed::Failed { pos: p, consumed: false, left: Some(Json::Object(acc)) }
    } else {
        let key = scan_string(chars, p + 1);
        if !key.closed {
            Parsed::Failed { pos: key.pos, consumed: key.consumed, left: Some(Json::Object(acc)) }
        } else {
            let c = skip_spaces(chars, key.pos + 1);
            proof {
                lemma_skip_spaces(chars, from);
                lemma_scan_string(chars, p + 1);
                lemma_skip_spaces(chars, key.pos + 1);
            }
            if !(c < chars.len() && chars[c] == ':') {
                Parsed::Failed { pos: c, consumed: false, left: Some(Json::Object(acc)) }
            } else {
                match value(chars, c + 1, table) {
                    Parsed::Failed { pos, consumed, .. } => Parsed::Failed {
                        pos,
                        consumed,
                        left: Some(Json::Object(acc)),
                    },
                    Parsed::Done { value: item, pos, consumed } => {
                        let q = skip_spaces(chars, if consumed { pos + 1 } else { pos });
                        let entries = entries_insert(acc, key.text, item);
                        if q < chars.len() && chars[q] == ',' && q >= from {
                            members(chars, q + 1, table, entries)
                        } else if q < chars.len() && chars[q] == '}' {
                            Parsed::Done { value: Json::Object(entries), pos: q, consumed: true }
                        } else {
                            Parsed::Failed {
                                pos: q,
                                consumed: false,
                                left: Some(Json::Object(entries)),
                            }
                        }
                    },
                }
            }
        }
    }
}

impl Parsed {
    /// A reading from `from` stops in the text, at or after `from`; one
    /// that gives a value has read at least one character, and stands on a
    /// character of the text if it keeps it consumed.
    pub open spec fn within(self, chars: Seq<char>, from: int) -> bool {
        &&& from <= self.pos() <= chars.len()
        &&& self is Done ==> from < self.next() <= chars.len()
    }
}

/// A literal is read within the text.
pub proof fn lemma_literal_within(chars: Seq<char>, from: int, pattern: Seq<char>, value: Json)
    requires
        0 <= from <= chars.len(),
        pattern.len() > 0,
    ensures
        literal(chars, from, pattern, value).within(chars, from),
{
    lemma_matched(chars, from, pattern, 0);
}

/// A value is read within the text.
pub proof fn lemma_value_within(chars: Seq<char>, from: int, table: Seq<TableEntry>)
    requires
        0 <= from <= chars.len(),
    ensures
        value(chars, from, table).within(chars, from),
    decreases chars.len() - from, 0nat,
{
    let p = skip_spaces(chars, from);
    lemma_skip_spaces(chars, from);
    if p < chars.len() {
        if chars[p] == 'n' || chars[p] == 't' || chars[p] == 'f' {
            reveal_strlit("ull");
            reveal_strlit("rue");
            reveal_strlit("alse");
            lemma_literal_within(chars, p + 1, "ull"@, Json::Null);
            lemma_literal_within(chars, p + 1, "rue"@, Json::Boolean(true));
            lemma_literal_within(chars, p + 1, "alse"@, Json::Boolean(false));
        } else if chars[p] == '[' {
            lemma_array_within(chars, p + 1, table);
        } else if chars[p] == '{' {
            lemma_object_within(chars, p + 1, table);
        } else if is_number_start(chars[p]) {
            lemma_token_end(chars, p);
        } else if chars[p] == '"' {
            lemma_scan_string(chars, p + 1);
        }
    }
}

/// An array is read within the text.
pub proof fn lemma_array_within(chars: Seq<char>, from: int, table: Seq<TableEntry>)
    requires
        0 <= from <= chars.len(),
    ensures
        array(chars, from, table).within(chars, from),
    decreases chars.len() - from, 2nat,
{
    let p = skip_spaces(chars, from);
    lemma_skip_spaces(chars, from);
    if !(p < chars.len() && chars[p] == ']') {
        lemma_items_within(chars, p, table, Seq::empty());
    }
}

/// The items of an array are read within the text.
pub proof fn lemma_items_within(
    chars: Seq<char>,
    from: int,
    table: Seq<TableEntry>,
    acc: Seq<Json>,
)
    requires
        0 <= from <= chars.len(),
    ensures
        items(chars, from, table, acc).within(chars, from),
    decreases chars.len() - from, 1nat,
{
    lemma_value_within(chars, from, table);
    match value(chars, from, table) {
        Parsed::Failed { .. } => {},
        Parsed::Done { value: item, pos, consumed } => {
            let next = if consumed { pos + 1 } else { pos };
            let q = skip_spaces(chars, next);
            lemma_skip_spaces(chars, next);
            if q < chars.len() && chars[q] == ',' {
                lemma_items_within(chars, q + 1, table, acc.push(item));
            }
        },
    }
}

/// An object is read within the text.
pub proof fn lemma_object_within(chars: Seq<char>, from: int, table: Seq<TableEntry>)
    requires
        0 <= from <= chars.len(),
    ensures
        object(chars, from, table).within(chars, from),
    decreases chars.len() - from, 2nat,
{
    let p = skip_spaces(chars, from);
    lemma_skip_spaces(chars, from);
    if !(p < chars.len() && chars[p] == '}') {
        lemma_members_within(chars, p, table, Seq::empty());
    }
}

/// The members of an object are read within the text.
pub proof fn lemma_members_within(
    chars: Seq<char>,
    from: int,
    table: Seq<TableEntry>,
    acc: Seq<Entry>,
)
    requires
        0 <= from <= chars.len(),
    ensures
        members(chars, from, table, acc).within(chars, from),
    decreases chars.len() - from, 1nat,
{
    let p = skip_spaces(chars, from);
    lemma_skip_spaces(chars, from);
    if p < chars.len() && chars[p] == '"' {
        let key = scan_string(chars, p + 1);
        lemma_scan_string(chars, p + 1);
        if key.closed {
            let c = skip_spaces(chars, key.pos + 1);
            lemma_skip_spaces(chars, key.pos + 1);
            if c < chars.len() && chars[c] == ':' {
                lemma_value_within(chars, c + 1, table);
                match value(chars, c + 1, table) {
                    Parsed::Failed { .. } => {},
                    Parsed::Done { value: item, pos, consumed } => {
                        let next = if consumed { pos + 1 } else { pos };
                        let q = skip_spaces(chars, next);
                        lemma_skip_spaces(chars, next);
                        if q < chars.len() && chars[q] == ',' {
                            lemma_members_within(
                                chars,
                                q + 1,
                                table,
                                entries_insert(acc, key.text, item),
                            );
                        }
                    },
                }
            }
        }
    }
}

/// The kind of a parse failure.
#[derive(Debug, Clone, Copy, PartialEq, Eq)]
pub enum ErrorKind {
    /// The text breaks the grammar.
    SyntaxError,
    /// The text holds a `\u` escape, which the library does not decode.
    UnsupportedEscape,
}

/// A parse failure as plain values.
pub ghost struct Failure {
    pub kind: ErrorKind,
    /// The line on which the reading stopped, counted from 1.
    pub line: int,
    /// The text from where the reading stopped to the end of that line.
    pub near: Seq<char>,
}

/// The failure reported for a reading that stopped at `pos`. It is an
/// unsupported escape where the reading stopped on a `u` that it had
/// consumed, which only happens after a backslash in a string.
pub open spec fn failure_at(chars: Seq<char>, pos: int, consumed: bool) -> Failure {
    Failure {
        kind: if consumed && 0 <= pos < chars.len() && chars[pos] == 'u' {
            ErrorKind::UnsupportedEscape
        } else {
            ErrorKind::SyntaxError
        },
        line: line_number(chars, pos),
        near: chars.subrange(pos, line_end(chars, pos)),
    }
}

/// What parsing a whole text gives: the first value in it, or the failure
/// at the place where reading it stopped. What follows the value is not
/// read.
pub open spec fn document(chars: Seq<char>, table: Seq<TableEntry>) -> Result<Json, Failure> {
    match value(chars, 0, table) {
        Parsed::Done { value, .. } => Ok(value),
        Parsed::Failed { pos, consumed, .. } => Err(failure_at(chars, pos, consumed)),
    }
}

} // verus!
