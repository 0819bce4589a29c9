//! The serializer: writes a value tree as bytes, compact or indented.

use vstd::prelude::*;
use vstd::utf8::{decode_utf8, encode_utf8, valid_utf8};
use crate::model::{Entry, Json};
use crate::number::Number;
use crate::text::{text_from_utf8, to_chars};
use crate::value::{array_model, lemma_array_model, Object, Value};

verus! {

/// The bytes that the serializer writes between values and in escapes.
pub const QUOTE: u8 = 0x22;

pub const BACKSLASH: u8 = 0x5c;

pub const COMMA: u8 = 0x2c;

pub const COLON: u8 = 0x3a;

pub const SPACE: u8 = 0x20;

pub const LINE_FEED: u8 = 0x0a;

pub const OPEN_BRACKET: u8 = 0x5b;

pub const CLOSE_BRACKET: u8 = 0x5d;

pub const OPEN_BRACE: u8 = 0x7b;

pub const CLOSE_BRACE: u8 = 0x7d;

pub const LETTER_N: u8 = 0x6e;

pub const LETTER_R: u8 = 0x72;

pub const LETTER_T: u8 = 0x74;

/// How a document is laid out.
#[derive(Debug, Clone, Copy)]
pub enum JsonSerializationStyle {
    /// No white space at all.
    Minimum,
    /// Every item on a line of its own, indented by `indent_width` spaces
    /// for each of the `indent_level` containers around it.
    Pretty { indent_level: i32, indent_width: i32 },
}

/// Why a value could not be written.
#[derive(Debug, Clone, Copy, PartialEq, Eq)]
pub enum SerializeError {
    /// A string holds a character above U+00FF.
    UnsupportedCharacter,
    /// Containers are nested deeper than the indent level can count.
    TooDeep,
    /// The bytes written are not UTF-8, so they make no `String`.
    NotUtf8,
}

/// The result of a step of the serializer.
pub type SerializeResult = Result<(), SerializeError>;

/// What a step writes: the bytes, and the fault that stopped it, if one
/// did. After a fault nothing more is written.
pub ghost struct Emitted {
    pub bytes: Seq<u8>,
    pub fault: Option<SerializeError>,
}

impl Emitted {
    /// A step that writes `bytes` and cannot fail.
    pub open spec fn ok(bytes: Seq<u8>) -> Emitted {
        Emitted { bytes, fault: None }
    }

    /// A step that writes nothing and fails.
    pub open spec fn fail(fault: SerializeError) -> Emitted {
        Emitted { bytes: Seq::empty(), fault: Some(fault) }
    }

    /// This step, and `next` after it unless this step failed.
    pub open spec fn followed_by(self, next: Emitted) -> Emitted {
        if self.fault is Some {
            self
        } else {
            Emitted { bytes: self.bytes + next.bytes, fault: next.fault }
        }
    }

    /// What a function that makes this step returns.
    pub open spec fn result(self) -> SerializeResult {
        match self.fault {
            Some(e) => Err(e),
            None => Ok(()),
        }
    }
}

/// Steps in a row may be grouped either way.
pub proof fn lemma_followed_by_assoc(a: Emitted, b: Emitted, c: Emitted)
    ensures
        a.followed_by(b).followed_by(c) == a.followed_by(b.followed_by(c)),
{
    assert((a.bytes + b.bytes) + c.bytes =~= a.bytes + (b.bytes + c.bytes));
}

/// A step that writes nothing and cannot fail changes nothing.
pub proof fn lemma_followed_by_nothing(a: Emitted)
    ensures
        a.followed_by(Emitted::ok(Seq::empty())) == a,
        Emitted::ok(Seq::empty()).followed_by(a) == a,
{
    assert(a.bytes + Seq::<u8>::empty() =~= a.bytes);
    assert(Seq::<u8>::empty() + a.bytes =~= a.bytes);
}

/// `n` spaces; none if `n` is not positive.
pub open spec fn spaces(n: int) -> Seq<u8> {
    Seq::new(
        if n > 0 {
            n as nat
        } else {
            0
        },
        |i: int| SPACE,
    )
}

/// What ends a line and indents the next one.
pub open spec fn line_break(style: JsonSerializationStyle) -> Seq<u8> {
    match style {
        JsonSerializationStyle::Minimum => Seq::empty(),
        JsonSerializationStyle::Pretty { indent_level, indent_width } => seq![LINE_FEED] + spaces(
            indent_level * indent_width,
        ),
    }
}

/// What ends the document.
pub open spec fn final_line(style: JsonSerializationStyle) -> Seq<u8> {
    match style {
        JsonSerializationStyle::Minimum => Seq::empty(),
        JsonSerializationStyle::Pretty { .. } => seq![LINE_FEED],
    }
}

/// What stands between a key and its value.
pub open spec fn colon(style: JsonSerializationStyle) -> Seq<u8> {
    match style {
        JsonSerializationStyle::Minimum => seq![COLON],
        JsonSerializationStyle::Pretty { .. } => seq![COLON, SPACE],
    }
}

/// Whether the style can go one container deeper.
pub open spec fn can_indent(style: JsonSerializationStyle) -> bool {
    match style {
        JsonSerializationStyle::Minimum => true,
        JsonSerializationStyle::Pretty { indent_level, .. } => indent_level < i32::MAX,
    }
}

/// The style one container deeper.
pub open spec fn deeper(style: JsonSerializationStyle) -> JsonSerializationStyle {
    match style {
        JsonSerializationStyle::Minimum => JsonSerializationStyle::Minimum,
        JsonSerializationStyle::Pretty {
            indent_level,
            indent_width,
        } => JsonSerializationStyle::Pretty {
            indent_level: (indent_level + 1) as i32,
            indent_width,
        },
    }
}

/// The style one container less deep.
pub open spec fn shallower(style: JsonSerializationStyle) -> JsonSerializationStyle {
    match style {
        JsonSerializationStyle::Minimum => JsonSerializationStyle::Minimum,
        JsonSerializationStyle::Pretty {
            indent_level,
            indent_width,
        } => JsonSerializationStyle::Pretty {
            indent_level: (indent_level - 1) as i32,
            indent_width,
        },
    }
}

/// The bytes for one character of a string: an escape for the quote, the
/// backslash, line feed, carriage return and tab; the character's own
/// code as one byte for any other up to U+00FF; nothing above.
pub open spec fn escape(c: char) -> Option<Seq<u8>> {
    if c == '"' {
        Some(seq![BACKSLASH, QUOTE])
    } else if c == '\n' {
        Some(seq![BACKSLASH, LETTER_N])
    } else if c == '\r' {
        Some(seq![BACKSLASH, LETTER_R])
    } else if c == '\t' {
        Some(seq![BACKSLASH, LETTER_T])
    } else if c == '\\' {
        Some(seq![BACKSLASH, BACKSLASH])
    } else if c <= '\u{ff}' {
        Some(seq![c as u8])
    } else {
        None
    }
}

/// The characters of a string from `from` on, escaped, up to the first
/// that has no bytes.
pub open spec fn emit_chars(s: Seq<char>, from: int) -> Emitted
    decreases s.len() - from,
{
    if from < 0 || from >= s.len() {
        Emitted::ok(Seq::empty())
    } else {
        match escape(s[from]) {
            Some(bytes) => Emitted::ok(bytes).followed_by(emit_chars(s, from + 1)),
            None => Emitted::fail(SerializeError::UnsupportedCharacter),
        }
    }
}

/// A string between quotes.
pub open spec fn emit_string(s: Seq<char>) -> Emitted {
    Emitted::ok(seq![QUOTE]).followed_by(emit_chars(s, 0).followed_by(Emitted::ok(seq![QUOTE])))
}

/// A value in a style.
pub open spec fn emit_value(v: Json, style: JsonSerializationStyle) -> Emitted
    decreases v, 0nat,
{
    match v {
        Json::Null => Emitted::ok(encode_utf8("null"@)),
        Json::Boolean(b) => if b {
            Emitted::ok(encode_utf8("true"@))
        } else {
            Emitted::ok(encode_utf8("false"@))
        },
        Json::Number(n) => Emitted::ok(encode_utf8(n.text)),
        Json::String(s) => emit_string(s),
        Json::Array(items) => if items.len() == 0 {
            Emitted::ok(encode_utf8("[]"@))
        } else if !can_indent(style) {
            Emitted::fail(SerializeError::TooDeep)
        } else {
            Emitted::ok(seq![OPEN_BRACKET]).followed_by(
                emit_items(items, 0, deeper(style)).followed_by(
                    Emitted::ok(line_break(style) + seq![CLOSE_BRACKET]),
                ),
            )
        },
        Json::Object(entries) => if entries.len() == 0 {
            Emitted::ok(encode_utf8("{}"@))
        } else if !can_indent(style) {
            Emitted::fail(SerializeError::TooDeep)
        } else {
            Emitted::ok(seq![OPEN_BRACE]).followed_by(
                emit_entries(entries, 0, deeper(style)).followed_by(
                    Emitted::ok(line_break(style) + seq![CLOSE_BRACE]),
                ),
            )
        },
    }
}

/// What separates an item from the one before it: a comma, unless it is
/// the first, and a line break.
pub open spec fn separator(index: int, style: JsonSerializationStyle) -> Seq<u8> {
    if index > 0 {
        seq![COMMA] + line_break(style)
    } else {
        line_break(style)
    }
}

/// The items of an array from `from` on, in the style of the inside of
/// the array.
pub open spec fn emit_items(items: Seq<Json>, from: int, style: JsonSerializationStyle) -> Emitted
    decreases items, items.len() - from,
{
    if from < 0 || from >= items.len() {
        Emitted::ok(Seq::empty())
    } else {
        Emitted::ok(separator(from, style)).followed_by(
            emit_value(items[from], style).followed_by(emit_items(items, from + 1, style)),
        )
    }
}

/// The entries of an object from `from` on, in the style of the inside
/// of the object.
pub open spec fn emit_entries(
    entries: Seq<Entry>,
    from: int,
    style: JsonSerializationStyle,
) -> Emitted
    decreases entries, entries.len() - from,
{
    if from < 0 || from >= entries.len() {
        Emitted::ok(Seq::empty())
    } else {
        Emitted::ok(separator(from, style)).followed_by(
            emit_string(entries[from].0).followed_by(
                Emitted::ok(colon(style)).followed_by(
                    emit_value(entries[from].1, style).followed_by(
                        emit_entries(entries, from + 1, style),
                    ),
                ),
            ),
        )
    }
}

/// A whole document: the value and what ends the document.
pub open spec fn emit_document(v: Json, style: JsonSerializationStyle) -> Emitted {
    emit_value(v, style).followed_by(Emitted::ok(final_line(style)))
}

/// Takes the flag and clears it: `true` the first time, `false` after.
pub fn is_first(value: &mut bool) -> (r: bool)
    ensures
        r == *old(value),
        !*final(value),
{
    let old_value = *value;
    *value = false;
    old_value
}

/// A serializer: the bytes written so far and the style to write in.
pub struct JsonSerializer {
    /// The bytes written so far.
    pub writer: Vec<u8>,
    /// The style, with the indent level of the place being written.
    pub style: JsonSerializationStyle,
}

impl JsonSerializer {
    /// Whether this serializer wrote `step` after what it held before.
    pub open spec fn wrote(self, before: JsonSerializer, step: Emitted) -> bool {
        self.writer@ == before.writer@ + step.bytes && self.style == before.style
    }

    /// Writes one byte.
    pub fn write_char(&mut self, c: u8) -> (r: SerializeResult)
        ensures
            r == Ok::<(), SerializeError>(()),
            final(self).wrote(*old(self), Emitted::ok(seq![c])),
    {
        self.writer.push(c);
        assert(self.writer@ =~= old(self).writer@ + seq![c]);
        Ok(())
    }

    /// Writes a text as its UTF-8 bytes.
    pub fn write_str(&mut self, s: &str) -> (r: SerializeResult)
        ensures
            r == Ok::<(), SerializeError>(()),
            final(self).wrote(*old(self), Emitted::ok(encode_utf8(s@))),
    {
        let bytes = s.as_bytes();
        let mut i: usize = 0;
        while i < bytes.len()
            invariant
                i <= bytes.len(),
                bytes@ == encode_utf8(s@),
                self.style == old(self).style,
                self.writer@ == old(self).writer@ + bytes@.take(i as int),
            decreases bytes.len() - i,
        {
            self.writer.push(bytes[i]);
            i += 1;
            assert(self.writer@ =~= old(self).writer@ + bytes@.take(i as int));
        }
        assert(bytes@.take(i as int) =~= bytes@);
        Ok(())
    }

    /// Ends the current line and indents the next one.
    pub fn end_line(&mut self) -> (r: SerializeResult)
        ensures
            r == Ok::<(), SerializeError>(()),
            final(self).wrote(*old(self), Emitted::ok(line_break(old(self).style))),
    {
        match self.style {
            JsonSerializationStyle::Pretty { indent_level, indent_width } => {
                self.writer.push(LINE_FEED);
                let level: i64 = indent_level as i64;
                let width: i64 = indent_width as i64;
                assert(-0x8000_0000 * 0x8000_0000 <= level * width <= 0x8000_0000 * 0x8000_0000)
                    by (nonlinear_arith)
                    requires
                        -0x8000_0000 <= level <= 0x8000_0000,
                        -0x8000_0000 <= width <= 0x8000_0000,
                ;
                let count: i64 = level * width;
                let mut i: i64 = 0;
                while i < count
                    invariant
                        0 <= i,
                        count > 0 ==> i <= count,
                        count <= 0 ==> i == 0,
                        count == indent_level * indent_width,
                        self.style == old(self).style,
                        self.writer@ == old(self).writer@ + (seq![LINE_FEED] + spaces(i as int)),
                    decreases count - i,
                {
                    self.writer.push(SPACE);
                    i += 1;
                    assert(self.writer@ =~= old(self).writer@ + (seq![LINE_FEED] + spaces(
                        i as int,
                    )));
                }
                assert(spaces(i as int) =~= spaces(count as int));
                Ok(())
            },
            JsonSerializationStyle::Minimum => {
                assert(self.writer@ =~= old(self).writer@ + Seq::<u8>::empty());
                Ok(())
            },
        }
    }

    /// Goes one container deeper: the lines that follow are indented one
    /// level more.
    pub fn inc_indent(&mut self)
        requires
            can_indent(old(self).style),
        ensures
            final(self).style == deeper(old(self).style),
            final(self).writer@ == old(self).writer@,
    {
        match self.style {
            JsonSerializationStyle::Pretty { indent_level, indent_width } => {
                self.style = JsonSerializationStyle::Pretty {
                    indent_level: indent_level + 1,
                    indent_width,
                };
            },
            JsonSerializationStyle::Minimum => {},
        }
    }

    /// Leaves a container: the lines that follow are indented one level
    /// less.
    pub fn dec_indent(&mut self)
        requires
            old(self).style matches JsonSerializationStyle::Pretty { indent_level, .. }
                ==> indent_level > i32::MIN,
        ensures
            final(self).style == shallower(old(self).style),
            final(self).writer@ == old(self).writer@,
    {
        match self.style {
            JsonSerializationStyle::Pretty { indent_level, indent_width } => {
                self.style = JsonSerializationStyle::Pretty {
                    indent_level: indent_level - 1,
                    indent_width,
                };
            },
            JsonSerializationStyle::Minimum => {},
        }
    }

    /// Ends the last line of the document.
    pub fn end_final_line(&mut self) -> (r: SerializeResult)
        ensures
            r == Ok::<(), SerializeError>(()),
            final(self).wrote(*old(self), Emitted::ok(final_line(old(self).style))),
    {
        match self.style {
            JsonSerializationStyle::Pretty { .. } => {
                self.writer.push(LINE_FEED);
                assert(self.writer@ =~= old(self).writer@ + seq![LINE_FEED]);
            },
            JsonSerializationStyle::Minimum => {
                assert(self.writer@ =~= old(self).writer@ + Seq::<u8>::empty());
            },
        }
        Ok(())
    }

    /// Writes what stands between a key and its value.
    pub fn write_colon(&mut self) -> (r: SerializeResult)
        ensures
            r == Ok::<(), SerializeError>(()),
            final(self).wrote(*old(self), Emitted::ok(colon(old(self).style))),
    {
        match self.style {
            JsonSerializationStyle::Minimum => {
                self.writer.push(COLON);
                assert(self.writer@ =~= old(self).writer@ + seq![COLON]);
            },
            JsonSerializationStyle::Pretty { .. } => {
                self.writer.push(COLON);
                self.writer.push(SPACE);
                assert(self.writer@ =~= old(self).writer@ + seq![COLON, SPACE]);
            },
        }
        Ok(())
    }

    /// Writes a number: its decimal text.
    pub fn serialize_number(&mut self, value: &Number) -> (r: SerializeResult)
        ensures
            r == Ok::<(), SerializeError>(()),
            final(self).wrote(*old(self), Emitted::ok(encode_utf8(value@.text))),
    {
        self.write_str(value.text())
    }

    /// What was written since `start` is `head`, which did not fail, and
    /// with `rest` after it that makes `goal`.
    pub open spec fn midway(
        self,
        start: JsonSerializer,
        head: Emitted,
        rest: Emitted,
        goal: Emitted,
    ) -> bool {
        &&& head.fault is None
        &&& self.writer@ == start.writer@ + head.bytes
        &&& goal == head.followed_by(rest)
    }

    /// After `step` was written, what was written since `start` is `head`
    /// and `step`; if `step` failed that is all of `goal`.
    pub proof fn lemma_step(
        self,
        mid: JsonSerializer,
        start: JsonSerializer,
        head: Emitted,
        step: Emitted,
        rest: Emitted,
        goal: Emitted,
    )
        requires
            mid.midway(start, head, step.followed_by(rest), goal),
            self.writer@ == mid.writer@ + step.bytes,
        ensures
            step.fault is None ==> self.midway(start, head.followed_by(step), rest, goal),
            step.fault is Some ==> goal == head.followed_by(step),
            self.writer@ == start.writer@ + head.followed_by(step).bytes,
    {
        lemma_followed_by_assoc(head, step, rest);
        assert((start.writer@ + head.bytes) + step.bytes =~= start.writer@ + (head.bytes
            + step.bytes));
    }

    /// Writes an array: its items between brackets, each after a line
    /// break, separated by commas. It stops at the first item that cannot
    /// be written.
    pub fn serialize_array(&mut self, array: &Vec<Value>) -> (r: SerializeResult)
        ensures
            r == emit_value(Json::Array(array_model(array@)), old(self).style).result(),
            final(self).wrote(
                *old(self),
                emit_value(Json::Array(array_model(array@)), old(self).style),
            ),
        decreases array, 1nat,
    {
        let ghost items = array_model(array@);
        let ghost inside = deeper(self.style);
        let ghost goal = emit_value(Json::Array(items), self.style);
        let ghost tail = Emitted::ok(line_break(self.style) + seq![CLOSE_BRACKET]);
        proof {
            lemma_array_model(array@);
        }
        if array.len() == 0 {
            return self.write_str("[]");
        }
        if !self.can_indent() {
            assert(self.writer@ =~= old(self).writer@ + Seq::<u8>::empty());
            return Err(SerializeError::TooDeep);
        }
        self.write_char(OPEN_BRACKET)?;
        self.inc_indent();
        let mut first = true;
        let mut i: usize = 0;
        let ghost head = Emitted::ok(seq![OPEN_BRACKET]);
        assert(self.writer@ =~= old(self).writer@ + head.bytes);
        while i < array.len()
            invariant
                i <= array.len(),
                first == (i == 0),
                items == array_model(array@),
                items.len() == array.len(),
                goal == emit_value(Json::Array(items), old(self).style),
                tail == Emitted::ok(line_break(old(self).style) + seq![CLOSE_BRACKET]),
                can_indent(old(self).style),
                inside == deeper(old(self).style),
                self.style == inside,
                self.midway(
                    *old(self),
                    head,
                    emit_items(items, i as int, inside).followed_by(tail),
                    goal,
                ),
            decreases array.len() - i,
        {
            let ghost one = emit_value(items[i as int], inside);
            let ghost rest = emit_items(items, i + 1, inside).followed_by(tail);
            let ghost at_loop = *self;
            proof {
                lemma_followed_by_assoc(
                    Emitted::ok(separator(i as int, inside)),
                    one.followed_by(emit_items(items, i + 1, inside)),
                    tail,
                );
                lemma_followed_by_assoc(one, emit_items(items, i + 1, inside), tail);
            }
            if !is_first(&mut first) {
                self.write_char(COMMA)?;
            }
            self.end_line()?;
            proof {
                assert(self.writer@ =~= at_loop.writer@ + separator(i as int, inside));
                self.lemma_step(
                    at_loop,
                    *old(self),
                    head,
                    Emitted::ok(separator(i as int, inside)),
                    one.followed_by(rest),
                    goal,
                );
                head = head.followed_by(Emitted::ok(separator(i as int, inside)));
                lemma_array_model(array@);
                assert(decreases_to!(array => array[i as int]));
            }
            let ghost at_item = *self;
            let item = self.serialize_core(&array[i]);
            proof {
                self.lemma_step(at_item, *old(self), head, one, rest, goal);
                head = head.followed_by(one);
            }
            match item {
                Err(e) => {
                    self.dec_indent();
                    return Err(e);
                },
                Ok(()) => {},
            }
            i += 1;
        }
        self.dec_indent();
        let ghost at_end = *self;
        self.end_line()?;
        self.write_char(CLOSE_BRACKET)?;
        proof {
            lemma_followed_by_nothing(tail);
            assert(self.writer@ =~= at_end.writer@ + tail.bytes);
            self.lemma_step(at_end, *old(self), head, tail, Emitted::ok(Seq::empty()), goal);
            lemma_followed_by_nothing(head.followed_by(tail));
        }
        Ok(())
    }

    /// Writes an object: its entries between braces, in the order of the
    /// keys, each after a line break, separated by commas. It stops at the
    /// first key or value that cannot be written.
    pub fn serialize_object(&mut self, object: &Object) -> (r: SerializeResult)
        ensures
            r == emit_value(Json::Object(object@), old(self).style).result(),
            final(self).wrote(*old(self), emit_value(Json::Object(object@), old(self).style)),
        decreases object, 1nat,
    {
        let ghost entries = object@;
        let ghost inside = deeper(self.style);
        let ghost goal = emit_value(Json::Object(entries), self.style);
        let ghost tail = Emitted::ok(line_break(self.style) + seq![CLOSE_BRACE]);
        if object.len() == 0 {
            return self.write_str("{}");
        }
        if !self.can_indent() {
            assert(self.writer@ =~= old(self).writer@ + Seq::<u8>::empty());
            return Err(SerializeError::TooDeep);
        }
        self.write_char(OPEN_BRACE)?;
        self.inc_indent();
        let mut first = true;
        let mut i: usize = 0;
        let ghost head = Emitted::ok(seq![OPEN_BRACE]);
        assert(self.writer@ =~= old(self).writer@ + head.bytes);
        while i < object.len()
            invariant
                i <= entries.len(),
                first == (i == 0),
                entries == object@,
                goal == emit_value(Json::Object(entries), old(self).style),
                tail == Emitted::ok(line_break(old(self).style) + seq![CLOSE_BRACE]),
                can_indent(old(self).style),
                inside == deeper(old(self).style),
                self.style == inside,
                self.midway(
                    *old(self),
                    head,
                    emit_entries(entries, i as int, inside).followed_by(tail),
                    goal,
                ),
            decreases entries.len() - i,
        {
            let ghost sep = Emitted::ok(separator(i as int, inside));
            let ghost key_step = emit_string(entries[i as int].0);
            let ghost colon_step = Emitted::ok(colon(inside));
            let ghost one = emit_value(entries[i as int].1, inside);
            let ghost more = emit_entries(entries, i + 1, inside);
            let ghost rest = more.followed_by(tail);
            let ghost at_loop = *self;
            proof {
                lemma_followed_by_assoc(one, more, tail);
                lemma_followed_by_assoc(colon_step, one.followed_by(more), tail);
                lemma_followed_by_assoc(
                    key_step,
                    colon_step.followed_by(one.followed_by(more)),
                    tail,
                );
                lemma_followed_by_assoc(
                    sep,
                    key_step.followed_by(colon_step.followed_by(one.followed_by(more))),
                    tail,
                );
            }
            if !is_first(&mut first) {
                self.write_char(COMMA)?;
            }
            self.end_line()?;
            proof {
                assert(self.writer@ =~= at_loop.writer@ + sep.bytes);
                self.lemma_step(
                    at_loop,
                    *old(self),
                    head,
                    sep,
                    key_step.followed_by(colon_step.followed_by(one.followed_by(rest))),
                    goal,
                );
                head = head.followed_by(sep);
            }
            let ghost at_key = *self;
            let key = self.serialize_string(object.key_at(i));
            proof {
                self.lemma_step(
                    at_key,
                    *old(self),
                    head,
                    key_step,
                    colon_step.followed_by(one.followed_by(rest)),
                    goal,
                );
                head = head.followed_by(key_step);
            }
            match key {
                Err(e) => {
                    self.dec_indent();
                    return Err(e);
                },
                Ok(()) => {},
            }
            let ghost at_colon = *self;
            self.write_colon()?;
            proof {
                self.lemma_step(
                    at_colon,
                    *old(self),
                    head,
                    colon_step,
                    one.followed_by(rest),
                    goal,
                );
                head = head.followed_by(colon_step);
            }
            let ghost at_item = *self;
            let item = self.serialize_core(object.value_at(i));
            proof {
                self.lemma_step(at_item, *old(self), head, one, rest, goal);
                head = head.followed_by(one);
            }
            match item {
                Err(e) => {
                    self.dec_indent();
                    return Err(e);
                },
                Ok(()) => {},
            }
            i += 1;
        }
        self.dec_indent();
        let ghost at_end = *self;
        self.end_line()?;
        self.write_char(CLOSE_BRACE)?;
        proof {
            lemma_followed_by_nothing(tail);
            assert(self.writer@ =~= at_end.writer@ + tail.bytes);
            self.lemma_step(at_end, *old(self), head, tail, Emitted::ok(Seq::empty()), goal);
            lemma_followed_by_nothing(head.followed_by(tail));
        }
        Ok(())
    }

    /// Writes a value.
    pub fn serialize_core(&mut self, value: &Value) -> (r: SerializeResult)
        ensures
            r == emit_value(value@, old(self).style).result(),
            final(self).wrote(*old(self), emit_value(value@, old(self).style)),
        decreases value, 2nat,
    {
        match value {
            Value::Null => self.write_str("null"),
            Value::Boolean(true) => self.write_str("true"),
            Value::Boolean(false) => self.write_str("false"),
            Value::Number(n) => self.serialize_number(n),
            Value::String(s) => self.serialize_string(s.as_str()),
            Value::Array(array) => self.serialize_array(array),
            Value::Object(object) => self.serialize_object(object),
        }
    }

    /// Writes a document: the value, and a line feed after it in the
    /// indented style.
    pub fn serialize(&mut self, value: &Value) -> (r: SerializeResult)
        ensures
            r == emit_document(value@, old(self).style).result(),
            final(self).wrote(*old(self), emit_document(value@, old(self).style)),
    {
        match self.serialize_core(value) {
            Err(e) => {
                return Err(e);
            },
            Ok(()) => {},
        }
        let r = self.end_final_line();
        proof {
            assert(self.writer@ =~= old(self).writer@ + (emit_value(value@, old(self).style).bytes
                + final_line(old(self).style)));
        }
        r
    }

    /// Whether the style can go one container deeper.
    pub fn can_indent(&self) -> (r: bool)
        ensures
            r == can_indent(self.style),
    {
        match self.style {
            JsonSerializationStyle::Pretty { indent_level, .. } => indent_level < i32::MAX,
            JsonSerializationStyle::Minimum => true,
        }
    }

    /// Writes a string between quotes, with its characters escaped. It
    /// stops at the first character above U+00FF.
    pub fn serialize_string(&mut self, value: &str) -> (r: SerializeResult)
        ensures
            r == emit_string(value@).result(),
            final(self).wrote(*old(self), emit_string(value@)),
    {
        self.write_char(QUOTE)?;
        let chars = to_chars(value);
        let mut i: usize = 0;
        let ghost done: Seq<u8> = Seq::empty();
        assert(self.writer@ =~= old(self).writer@ + (seq![QUOTE] + done));
        while i < chars.len()
            invariant
                i <= chars.len(),
                chars@ == value@,
                self.style == old(self).style,
                self.writer@ == old(self).writer@ + (seq![QUOTE] + done),
                emit_chars(value@, 0) == Emitted::ok(done).followed_by(
                    emit_chars(value@, i as int),
                ),
            decreases chars.len() - i,
        {
            let c = chars[i];
            let ghost before = done;
            if c == '"' {
                self.write_char(BACKSLASH)?;
                self.write_char(QUOTE)?;
            } else if c == '\n' {
                self.write_char(BACKSLASH)?;
                self.write_char(LETTER_N)?;
            } else if c == '\r' {
                self.write_char(BACKSLASH)?;
                self.write_char(LETTER_R)?;
            } else if c == '\t' {
                self.write_char(BACKSLASH)?;
                self.write_char(LETTER_T)?;
            } else if c == '\\' {
                self.write_char(BACKSLASH)?;
                self.write_char(BACKSLASH)?;
            } else if c <= '\u{ff}' {
                self.write_char(c as u8)?;
            } else {
                proof {
                    assert(old(self).writer@ + (seq![QUOTE] + done) =~= old(self).writer@
                        + emit_string(value@).bytes);
                }
                return Err(SerializeError::UnsupportedCharacter);
            }
            proof {
                done = before + escape(c)->0;
                assert(self.writer@ =~= old(self).writer@ + (seq![QUOTE] + done));
                assert(Emitted::ok(before).followed_by(emit_chars(value@, i as int)) == Emitted::ok(
                    done,
                ).followed_by(emit_chars(value@, i + 1))) by {
                    assert(before + (escape(c)->0 + emit_chars(value@, i + 1).bytes) =~= done
                        + emit_chars(value@, i + 1).bytes);
                }
            }
            i += 1;
        }
        self.write_char(QUOTE)?;
        proof {
            assert(done + Seq::<u8>::empty() =~= done);
            assert(self.writer@ =~= old(self).writer@ + emit_string(value@).bytes);
        }
        Ok(())
    }
}

/// What a document is as a text: the fault that stopped the writing, or
/// else the text that the bytes encode, if they are UTF-8.
pub open spec fn as_text(step: Emitted) -> Result<Seq<char>, SerializeError> {
    match step.fault {
        Some(e) => Err(e),
        None => if valid_utf8(step.bytes) {
            Ok(decode_utf8(step.bytes))
        } else {
            Err(SerializeError::NotUtf8)
        },
    }
}

/// Writes `value` without any white space, after what `writer` holds.
pub fn serialize(value: &Value, writer: &mut Vec<u8>) -> (r: SerializeResult)
    ensures
        r == emit_document(value@, JsonSerializationStyle::Minimum).result(),
        final(writer)@ == old(writer)@ + emit_document(
            value@,
            JsonSerializationStyle::Minimum,
        ).bytes,
{
    let mut buf: Vec<u8> = Vec::new();
    let mut serializer = JsonSerializer { writer: buf, style: JsonSerializationStyle::Minimum };
    let r = serializer.serialize(value);
    let mut written = serializer.writer;
    assert(written@ =~= emit_document(value@, JsonSerializationStyle::Minimum).bytes);
    writer.append(&mut written);
    r
}

/// Writes `value` with one item on each line, indented by `indent_width`
/// spaces for each level, after what `writer` holds.
pub fn pretty_print(value: &Value, indent_width: i32, writer: &mut Vec<u8>) -> (r: SerializeResult)
    ensures
        r == emit_document(
            value@,
            JsonSerializationStyle::Pretty { indent_level: 0, indent_width },
        ).result(),
        final(writer)@ == old(writer)@ + emit_document(
            value@,
            JsonSerializationStyle::Pretty { indent_level: 0, indent_width },
        ).bytes,
{
    let ghost style = JsonSerializationStyle::Pretty { indent_level: 0, indent_width };
    let mut buf: Vec<u8> = Vec::new();
    let mut serializer = JsonSerializer {
        writer: buf,
        style: JsonSerializationStyle::Pretty { indent_level: 0, indent_width },
    };
    let r = serializer.serialize(value);
    let mut written = serializer.writer;
    assert(written@ =~= emit_document(value@, style).bytes);
    writer.append(&mut written);
    r
}

/// The indent width of `Value::pretty_print`.
pub const DEFAULT_INDENT_WIDTH: i32 = 2;

impl Value {
    /// This value as a compact text.
    pub fn serialize(&self) -> (r: Result<String, SerializeError>)
        ensures
            match as_text(emit_document(self@, JsonSerializationStyle::Minimum)) {
                Ok(text) => r is Ok && r->Ok_0@ == text,
                Err(e) => r == Err::<String, SerializeError>(e),
            },
    {
        let mut buf: Vec<u8> = Vec::new();
        match serialize(self, &mut buf) {
            Err(e) => {
                return Err(e);
            },
            Ok(()) => {},
        }
        assert(buf@ =~= emit_document(self@, JsonSerializationStyle::Minimum).bytes);
        match text_from_utf8(buf) {
            Some(text) => Ok(text),
            None => Err(SerializeError::NotUtf8),
        }
    }

    /// This value as an indented text, two spaces to the level.
    pub fn pretty_print(&self) -> (r: Result<String, SerializeError>)
        ensures
            match as_text(
                emit_document(
                    self@,
                    JsonSerializationStyle::Pretty { indent_level: 0, indent_width: 2 },
                ),
            ) {
                Ok(text) => r is Ok && r->Ok_0@ == text,
                Err(e) => r == Err::<String, SerializeError>(e),
            },
    {
        let mut buf: Vec<u8> = Vec::new();
        match pretty_print(self, DEFAULT_INDENT_WIDTH, &mut buf) {
            Err(e) => {
                return Err(e);
            },
            Ok(()) => {},
        }
        assert(buf@ =~= emit_document(
            self@,
            JsonSerializationStyle::Pretty { indent_level: 0, indent_width: 2 },
        ).bytes);
        match text_from_utf8(buf) {
            Some(text) => Ok(text),
            None => Err(SerializeError::NotUtf8),
        }
    }
}

} // verus!
