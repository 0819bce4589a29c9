//! What holds of the parser and the serializer together: a value that is
//! written compactly and read again is the same value; what is parsed is
//! well formed; and a parse depends on its table only through the runs of
//! number characters in the text.

use vstd::prelude::*;
use vstd::utf8::{
    encode_utf8, encode_utf8_decode_utf8, encode_utf8_valid_utf8, is_ascii_chars,
    is_ascii_chars_encode_utf8,
};
use crate::grammar::{
    document, items, lemma_scan_string, lemma_token_end, members, runs, scan_string, token_end,
    unescape, value, Failure, Parsed, Scanned,
};
use crate::input::{is_space, lemma_skip_spaces, matched, skip_spaces};
use crate::model::{
    entries_insert, entries_position, entries_sorted, key_less, lemma_position, Entry, Json,
};
use crate::number::{is_number_char, is_number_start, table_lookup, table_wf, TableEntry};
use crate::serializer::{
    as_text, colon, emit_chars, emit_document, emit_entries, emit_items, emit_string, emit_value,
    escape, lemma_followed_by_nothing, line_break, separator, Emitted, JsonSerializationStyle,
    SerializeError, CLOSE_BRACE, CLOSE_BRACKET, OPEN_BRACE, OPEN_BRACKET, QUOTE,
};

verus! {

/// A character that a string can hold and get back: a printable ASCII
/// character, or a line feed, a carriage return or a tab.
pub open spec fn representable_char(c: char) -> bool {
    c <= '\u{7f}' && (' ' <= c || c == '\n' || c == '\r' || c == '\t')
}

/// A text of representable characters.
pub open spec fn representable_text(s: Seq<char>) -> bool {
    forall|i: int| 0 <= i < s.len() ==> representable_char(#[trigger] s[i])
}

/// Every string and every key in the value is a representable text.
pub open spec fn representable(v: Json) -> bool
    decreases v,
{
    match v {
        Json::String(s) => representable_text(s),
        Json::Array(items) => forall|i: int|
            0 <= i < items.len() ==> representable(#[trigger] items[i]),
        Json::Object(entries) => forall|i: int|
            0 <= i < entries.len() ==> representable_text((#[trigger] entries[i]).0)
                && representable(entries[i].1),
        _ => true,
    }
}

/// The table gives every number in the value for the number's own text.
pub open spec fn reads_back(table: Seq<TableEntry>, v: Json) -> bool
    decreases v,
{
    match v {
        Json::Number(n) => table_lookup(table, n.text, 0) == Some(n),
        Json::Array(items) => forall|i: int|
            0 <= i < items.len() ==> reads_back(table, #[trigger] items[i]),
        Json::Object(entries) => forall|i: int|
            0 <= i < entries.len() ==> reads_back(table, (#[trigger] entries[i]).1),
        _ => true,
    }
}

/// One character of a string as it is written.
pub open spec fn render_char(c: char) -> Seq<char> {
    if c == '"' {
        seq!['\\', '"']
    } else if c == '\n' {
        seq!['\\', 'n']
    } else if c == '\r' {
        seq!['\\', 'r']
    } else if c == '\t' {
        seq!['\\', 't']
    } else if c == '\\' {
        seq!['\\', '\\']
    } else {
        seq![c]
    }
}

/// The characters of a string from `from` on, as they are written.
pub open spec fn render_chars(s: Seq<char>, from: int) -> Seq<char>
    decreases s.len() - from,
{
    if from < 0 || from >= s.len() {
        Seq::empty()
    } else {
        render_char(s[from]) + render_chars(s, from + 1)
    }
}

/// A string as it is written.
pub open spec fn render_string(s: Seq<char>) -> Seq<char> {
    seq!['"'] + render_chars(s, 0) + seq!['"']
}

/// A value as the compact style writes it.
pub open spec fn render(v: Json) -> Seq<char>
    decreases v, 0nat,
{
    match v {
        Json::Null => seq!['n', 'u', 'l', 'l'],
        Json::Boolean(b) => if b {
            seq!['t', 'r', 'u', 'e']
        } else {
            seq!['f', 'a', 'l', 's', 'e']
        },
        Json::Number(n) => n.text,
        Json::String(s) => render_string(s),
        Json::Array(items) => seq!['['] + render_items(items, 0) + seq![']'],
        Json::Object(entries) => seq!['{'] + render_entries(entries, 0) + seq!['}'],
    }
}

/// The comma before an item that is not the first.
pub open spec fn render_comma(index: int) -> Seq<char> {
    if index > 0 {
        seq![',']
    } else {
        Seq::empty()
    }
}

/// The items of an array from `from` on, as the compact style writes
/// them.
pub open spec fn render_items(items: Seq<Json>, from: int) -> Seq<char>
    decreases items, items.len() - from,
{
    if from < 0 || from >= items.len() {
        Seq::empty()
    } else {
        render_comma(from) + render(items[from]) + render_items(items, from + 1)
    }
}

/// The entries of an object from `from` on, as the compact style writes
/// them.
pub open spec fn render_entries(entries: Seq<Entry>, from: int) -> Seq<char>
    decreases entries, entries.len() - from,
{
    if from < 0 || from >= entries.len() {
        Seq::empty()
    } else {
        render_comma(from) + render_string(entries[from].0) + seq![':'] + render(entries[from].1)
            + render_entries(entries, from + 1)
    }
}

/// The text `chars` holds `part` from position `at` on.
pub open spec fn holds(chars: Seq<char>, at: int, part: Seq<char>) -> bool {
    &&& 0 <= at
    &&& at + part.len() <= chars.len()
    &&& forall|i: int| 0 <= i < part.len() ==> chars[at + i] == #[trigger] part[i]
}

/// A text that holds two parts in a row holds each of them.
proof fn lemma_holds_split(chars: Seq<char>, at: int, a: Seq<char>, b: Seq<char>)
    requires
        holds(chars, at, a + b),
    ensures
        holds(chars, at, a),
        holds(chars, at + a.len(), b),
{
    assert forall|i: int| 0 <= i < a.len() implies chars[at + i] == #[trigger] a[i] by {
        assert((a + b)[i] == a[i]);
    }
    assert forall|i: int| 0 <= i < b.len() implies chars[at + a.len() + i] == #[trigger] b[i] by {
        assert((a + b)[a.len() + i] == b[i]);
    }
}

/// The inside of a written string is read back as the string: a scan
/// over what `render_chars` wrote for `s` from `k` on, with a quote after
/// it, gives those characters of `s` and stops on the quote.
proof fn lemma_scan_rendered(chars: Seq<char>, at: int, s: Seq<char>, k: int)
    requires
        representable_text(s),
        0 <= k <= s.len(),
        holds(chars, at, render_chars(s, k) + seq!['"']),
    ensures
        scan_string(chars, at) == (Scanned {
            text: s.subrange(k, s.len() as int),
            pos: at + render_chars(s, k).len(),
            closed: true,
            consumed: true,
        }),
    decreases s.len() - k,
{
    let written = render_chars(s, k);
    lemma_holds_split(chars, at, written, seq!['"']);
    if k >= s.len() {
        assert(chars[at] == seq!['"'][0]);
        assert(s.subrange(k, s.len() as int) =~= Seq::<char>::empty());
    } else {
        let c = s[k];
        let one = render_char(c);
        let rest = render_chars(s, k + 1);
        assert(representable_char(c));
        assert(written + seq!['"'] =~= one + (rest + seq!['"']));
        lemma_holds_split(chars, at, one, rest + seq!['"']);
        lemma_scan_rendered(chars, at + one.len(), s, k + 1);
        assert(chars[at] == one[0]);
        if one.len() == 2 {
            assert(chars[at + 1] == one[1]);
            assert(unescape(one[1]) == Some(c));
        }
        assert(s.subrange(k, s.len() as int) =~= seq![c] + s.subrange(k + 1, s.len() as int));
    }
}

/// What follows a written value in a text is no number character, so a
/// number token ends where the value ends.
pub open spec fn ends_token(chars: Seq<char>, end: int) -> bool {
    end >= chars.len() || !is_number_char(chars[end])
}

/// A written value starts with the character that selects its
/// production.
proof fn lemma_render_first(v: Json)
    requires
        v.wf(),
    ensures
        render(v).len() > 0,
        !is_space(render(v)[0]),
        render(v)[0] != ']',
        render(v)[0] != '}',
        match v {
            Json::Null => render(v)[0] == 'n',
            Json::Boolean(b) => render(v)[0] == (if b {
                't'
            } else {
                'f'
            }),
            Json::Number(n) => is_number_start(render(v)[0]),
            Json::String(_) => render(v)[0] == '"',
            Json::Array(_) => render(v)[0] == '[',
            Json::Object(_) => render(v)[0] == '{',
        },
{
    match v {
        Json::Number(n) => {
            assert(is_number_char(n.text[0]));
        },
        _ => {},
    }
}

/// Where a text holds a run of number characters and no number character
/// after it, a token read from its start ends at its end.
proof fn lemma_token_run(chars: Seq<char>, at: int, run: Seq<char>, k: int)
    requires
        holds(chars, at, run),
        0 <= k <= run.len(),
        forall|i: int| 0 <= i < run.len() ==> is_number_char(#[trigger] run[i]),
        ends_token(chars, at + run.len()),
    ensures
        token_end(chars, at + k) == at + run.len(),
    decreases run.len() - k,
{
    if k < run.len() {
        assert(chars[at + k] == run[k]);
        lemma_token_run(chars, at, run, k + 1);
    }
}

/// The entry at `k` of a sorted list goes to the end of the entries
/// before it.
proof fn lemma_insert_next(e: Seq<Entry>, k: int)
    requires
        entries_sorted(e),
        0 <= k < e.len(),
    ensures
        entries_insert(e.take(k), e[k].0, e[k].1) == e.take(k + 1),
{
    let before = e.take(k);
    let key = e[k].0;
    lemma_position(before, key, 0);
    let p = entries_position(before, key, 0);
    if p < k {
        assert(before[p] == e[p]);
        assert(key_less(e[p].0, e[k].0));
    }
    assert(before.insert(k, e[k]) =~= e.take(k + 1));
}

/// A written value is read back as the value, up to its last character.
proof fn lemma_value_rendered(chars: Seq<char>, at: int, v: Json, table: Seq<TableEntry>)
    requires
        v.wf(),
        representable(v),
        reads_back(table, v),
        holds(chars, at, render(v)),
        ends_token(chars, at + render(v).len()),
    ensures
        value(chars, at, table) is Done,
        value(chars, at, table)->Done_value == v,
        value(chars, at, table).next() == at + render(v).len(),
    decreases v, 0nat,
{
    let r = render(v);
    lemma_render_first(v);
    assert(chars[at] == r[0]);
    lemma_skip_spaces(chars, at);
    assert(skip_spaces(chars, at) == at);
    match v {
        Json::Null => {
            reveal_strlit("ull");
            let p = "ull"@;
            assert(chars[at + 1] == r[1] && chars[at + 2] == r[2] && chars[at + 3] == r[3]);
            assert(matched(chars, at + 1, p, 3) == 3);
            assert(matched(chars, at + 1, p, 2) == 3);
            assert(matched(chars, at + 1, p, 1) == 3);
            assert(matched(chars, at + 1, p, 0) == 3);
        },
        Json::Boolean(b) => {
            if b {
                reveal_strlit("rue");
                let p = "rue"@;
                assert(chars[at + 1] == r[1] && chars[at + 2] == r[2] && chars[at + 3] == r[3]);
                assert(matched(chars, at + 1, p, 3) == 3);
                assert(matched(chars, at + 1, p, 2) == 3);
                assert(matched(chars, at + 1, p, 1) == 3);
                assert(matched(chars, at + 1, p, 0) == 3);
            } else {
                reveal_strlit("alse");
                let p = "alse"@;
                assert(chars[at + 1] == r[1] && chars[at + 2] == r[2] && chars[at + 3] == r[3]
                    && chars[at + 4] == r[4]);
                assert(matched(chars, at + 1, p, 4) == 4);
                assert(matched(chars, at + 1, p, 3) == 4);
                assert(matched(chars, at + 1, p, 2) == 4);
                assert(matched(chars, at + 1, p, 1) == 4);
                assert(matched(chars, at + 1, p, 0) == 4);
            }
        },
        Json::Number(n) => {
            lemma_token_run(chars, at, n.text, 0);
            assert(chars.subrange(at, at + n.text.len()) =~= n.text);
        },
        Json::String(s) => {
            let inner = render_chars(s, 0);
            assert(r =~= seq!['"'] + (inner + seq!['"']));
            lemma_holds_split(chars, at, seq!['"'], inner + seq!['"']);
            lemma_scan_rendered(chars, at + 1, s, 0);
            assert(s.subrange(0, s.len() as int) =~= s);
        },
        Json::Array(items) => {
            let inner = render_items(items, 0);
            assert(r =~= seq!['['] + (inner + seq![']']));
            lemma_holds_split(chars, at, seq!['['], inner + seq![']']);
            if items.len() == 0 {
                assert(chars[at + 1] == (inner + seq![']'])[0]);
                lemma_skip_spaces(chars, at + 1);
                assert(items =~= Seq::<Json>::empty());
            } else {
                let first = render(items[0]);
                let more = render_items(items, 1);
                lemma_render_first(items[0]);
                assert(render_comma(0) + first + more =~= first + more);
                assert(inner + seq![']'] =~= first + more + seq![']']);
                assert(chars[at + 1] == (first + more + seq![']'])[0]);
                lemma_skip_spaces(chars, at + 1);
                lemma_items_rendered(chars, at + 1, items, 0, table, Seq::empty());
                assert(Seq::<Json>::empty() + items.subrange(0, items.len() as int) =~= items);
            }
        },
        Json::Object(entries) => {
            let inner = render_entries(entries, 0);
            assert(r =~= seq!['{'] + (inner + seq!['}']));
            lemma_holds_split(chars, at, seq!['{'], inner + seq!['}']);
            if entries.len() == 0 {
                assert(chars[at + 1] == (inner + seq!['}'])[0]);
                lemma_skip_spaces(chars, at + 1);
                assert(entries =~= Seq::<Entry>::empty());
            } else {
                let key = render_string(entries[0].0);
                let tail = seq![':'] + render(entries[0].1) + render_entries(entries, 1);
                assert(render_comma(0) + key + seq![':'] + render(entries[0].1) + render_entries(
                    entries,
                    1,
                ) =~= key + tail);
                assert(inner + seq!['}'] =~= key + seq![':'] + render(entries[0].1)
                    + render_entries(entries, 1) + seq!['}']);
                assert(chars[at + 1] == (key + seq![':'] + render(entries[0].1) + render_entries(
                    entries,
                    1,
                ) + seq!['}'])[0]);
                lemma_skip_spaces(chars, at + 1);
                lemma_entries_rendered(chars, at + 1, entries, 0, table);
                assert(entries.take(0) =~= Seq::<Entry>::empty());
            }
        },
    }
}

/// The written items of an array from `k` on are read back as those
/// items, after the items `acc`.
proof fn lemma_items_rendered(
    chars: Seq<char>,
    at: int,
    list: Seq<Json>,
    k: int,
    table: Seq<TableEntry>,
    acc: Seq<Json>,
)
    requires
        Json::Array(list).wf(),
        representable(Json::Array(list)),
        reads_back(table, Json::Array(list)),
        0 <= k < list.len(),
        holds(chars, at, render(list[k]) + render_items(list, k + 1) + seq![']']),
    ensures
        items(chars, at, table, acc) == (Parsed::Done {
            value: Json::Array(acc + list.subrange(k, list.len() as int)),
            pos: at + render(list[k]).len() + render_items(list, k + 1).len(),
            consumed: true,
        }),
    decreases list, list.len() - k,
{
    let one = render(list[k]);
    let more = render_items(list, k + 1);
    assert(one + more + seq![']'] =~= one + (more + seq![']']));
    lemma_holds_split(chars, at, one, more + seq![']']);
    let end = at + one.len();
    assert(chars[end] == (more + seq![']'])[0]);
    if k + 1 < list.len() {
        let next = render(list[k + 1]);
        let rest = render_items(list, k + 2);
        assert(more =~= seq![','] + (next + rest));
        assert(more + seq![']'] =~= seq![','] + (next + rest + seq![']']));
        lemma_holds_split(chars, end, seq![','], next + rest + seq![']']);
        assert(chars[end] == seq![','][0]);
        assert(Json::Array(list)->Array_0 == list);
        lemma_value_rendered(chars, at, list[k], table);
        lemma_skip_spaces(chars, end);
        lemma_items_rendered(chars, end + 1, list, k + 1, table, acc.push(list[k]));
        assert(acc.push(list[k]) + list.subrange(k + 1, list.len() as int) =~= acc
            + list.subrange(k, list.len() as int));
    } else {
        assert(more =~= Seq::<char>::empty());
        assert(chars[end] == ']');
        assert(Json::Array(list)->Array_0 == list);
        lemma_value_rendered(chars, at, list[k], table);
        lemma_skip_spaces(chars, end);
        assert(acc.push(list[k]) =~= acc + list.subrange(k, list.len() as int));
    }
}

/// The written entries of an object from `k` on are read back, after the
/// entries before them, as the whole object.
proof fn lemma_entries_rendered(
    chars: Seq<char>,
    at: int,
    entries: Seq<Entry>,
    k: int,
    table: Seq<TableEntry>,
)
    requires
        Json::Object(entries).wf(),
        representable(Json::Object(entries)),
        reads_back(table, Json::Object(entries)),
        0 <= k < entries.len(),
        holds(
            chars,
            at,
            render_string(entries[k].0) + seq![':'] + render(entries[k].1) + render_entries(
                entries,
                k + 1,
            ) + seq!['}'],
        ),
    ensures
        members(chars, at, table, entries.take(k)) == (Parsed::Done {
            value: Json::Object(entries),
            pos: at + render_string(entries[k].0).len() + 1 + render(entries[k].1).len()
                + render_entries(entries, k + 1).len(),
            consumed: true,
        }),
    decreases entries, entries.len() - k,
{
    let name = entries[k].0;
    let inner = render_chars(name, 0);
    let key = render_string(name);
    let one = render(entries[k].1);
    let more = render_entries(entries, k + 1);
    assert(key + seq![':'] + one + more + seq!['}'] =~= seq!['"'] + (inner + seq!['"'] + (seq![':']
        + (one + (more + seq!['}'])))));
    lemma_holds_split(
        chars,
        at,
        seq!['"'],
        inner + seq!['"'] + (seq![':'] + (one + (more + seq!['}']))),
    );
    assert(chars[at] == seq!['"'][0]);
    lemma_skip_spaces(chars, at);
    lemma_holds_split(chars, at + 1, inner + seq!['"'], seq![':'] + (one + (more + seq!['}'])));
    assert(Json::Object(entries)->Object_0 == entries);
    assert(representable_text(name));
    lemma_scan_rendered(chars, at + 1, name, 0);
    assert(name.subrange(0, name.len() as int) =~= name);
    let close = at + 1 + inner.len();
    lemma_holds_split(chars, close + 1, seq![':'], one + (more + seq!['}']));
    assert(chars[close + 1] == seq![':'][0]);
    lemma_skip_spaces(chars, close + 1);
    let start = close + 2;
    lemma_holds_split(chars, start, one, more + seq!['}']);
    let end = start + one.len();
    assert(chars[end] == (more + seq!['}'])[0]);
    lemma_insert_next(entries, k);
    if k + 1 < entries.len() {
        let next = render_string(entries[k + 1].0) + seq![':'] + render(entries[k + 1].1);
        let rest = render_entries(entries, k + 2);
        assert(more =~= seq![','] + (next + rest));
        assert(more + seq!['}'] =~= seq![','] + (next + rest + seq!['}']));
        lemma_holds_split(chars, end, seq![','], next + rest + seq!['}']);
        assert(chars[end] == seq![','][0]);
        assert(Json::Object(entries)->Object_0 == entries);
        lemma_value_rendered(chars, start, entries[k].1, table);
        lemma_skip_spaces(chars, end);
        lemma_entries_rendered(chars, end + 1, entries, k + 1, table);
    } else {
        assert(more =~= Seq::<char>::empty());
        assert(chars[end] == '}');
        assert(Json::Object(entries)->Object_0 == entries);
        lemma_value_rendered(chars, start, entries[k].1, table);
        lemma_skip_spaces(chars, end);
        assert(entries.take(k + 1) =~= entries);
    }
}

/// A number that a well-formed table gives is well formed.
proof fn lemma_lookup_wf(table: Seq<TableEntry>, token: Seq<char>, from: int)
    requires
        table_wf(table),
        0 <= from,
    ensures
        table_lookup(table, token, from) is Some ==> table_lookup(table, token, from)->0.wf(),
    decreases table.len() - from,
{
    if from < table.len() && table[from].0 != token {
        lemma_lookup_wf(table, token, from + 1);
    }
}

/// What is parsed through a well-formed table is well formed: its
/// numbers are finite, its objects have their keys in order, each once.
pub proof fn law_parsed_wf(chars: Seq<char>, from: int, table: Seq<TableEntry>)
    requires
        table_wf(table),
    ensures
        value(chars, from, table) is Done ==> value(chars, from, table)->Done_value.wf(),
    decreases chars.len() - from, 0nat,
{
    let p = skip_spaces(chars, from);
    lemma_skip_spaces(chars, from);
    if 0 <= p < chars.len() {
        if chars[p] == 'n' || chars[p] == 't' || chars[p] == 'f' {
        } else if chars[p] == '[' {
            let q = skip_spaces(chars, p + 1);
            lemma_skip_spaces(chars, p + 1);
            if !(q < chars.len() && chars[q] == ']') {
                lemma_items_wf(chars, q, table, Seq::empty());
            }
        } else if chars[p] == '{' {
            let q = skip_spaces(chars, p + 1);
            lemma_skip_spaces(chars, p + 1);
            if !(q < chars.len() && chars[q] == '}') {
                lemma_members_wf(chars, q, table, Seq::empty());
            }
        } else if is_number_start(chars[p]) {
            lemma_lookup_wf(table, chars.subrange(p, token_end(chars, p)), 0);
        }
    }
}

/// The items read through a well-formed table after well-formed items are
/// well formed.
proof fn lemma_items_wf(chars: Seq<char>, from: int, table: Seq<TableEntry>, acc: Seq<Json>)
    requires
        table_wf(table),
        Json::Array(acc).wf(),
    ensures
        crate::grammar::items(chars, from, table, acc) is Done ==> crate::grammar::items(
            chars,
            from,
            table,
            acc,
        )->Done_value.wf(),
    decreases chars.len() - from, 1nat,
{
    law_parsed_wf(chars, from, table);
    match value(chars, from, table) {
        Parsed::Failed { .. } => {},
        Parsed::Done { value: item, pos, consumed } => {
            let next = if consumed {
                pos + 1
            } else {
                pos
            };
            let q = skip_spaces(chars, next);
            let more = acc.push(item);
            assert(Json::Array(acc)->Array_0 == acc);
            assert(Json::Array(more)->Array_0 == more);
            assert forall|i: int| 0 <= i < more.len() implies (#[trigger] more[i]).wf() by {
                if i < acc.len() {
                    assert(more[i] == acc[i]);
                }
            }
            if q < chars.len() && chars[q] == ',' && q >= from {
                lemma_items_wf(chars, q + 1, table, more);
            }
        },
    }
}

/// The members read through a well-formed table after well-formed
/// entries are well formed.
proof fn lemma_members_wf(chars: Seq<char>, from: int, table: Seq<TableEntry>, acc: Seq<Entry>)
    requires
        table_wf(table),
        Json::Object(acc).wf(),
    ensures
        members(chars, from, table, acc) is Done ==> members(
            chars,
            from,
            table,
            acc,
        )->Done_value.wf(),
    decreases chars.len() - from, 1nat,
{
    let p = skip_spaces(chars, from);
    lemma_skip_spaces(chars, from);
    if 0 <= p < chars.len() && chars[p] == '"' {
        let key = scan_string(chars, p + 1);
        lemma_scan_string(chars, p + 1);
        if key.closed {
            let c = skip_spaces(chars, key.pos + 1);
            lemma_skip_spaces(chars, key.pos + 1);
            if c < chars.len() && chars[c] == ':' {
                law_parsed_wf(chars, c + 1, table);
                match value(chars, c + 1, table) {
                    Parsed::Failed { .. } => {},
                    Parsed::Done { value: item, pos, consumed } => {
                        let next = if consumed {
                            pos + 1
                        } else {
                            pos
                        };
                        let q = skip_spaces(chars, next);
                        crate::value::lemma_insert_wf(acc, key.text, item);
                        if q < chars.len() && chars[q] == ',' && q >= from {
                            lemma_members_wf(
                                chars,
                                q + 1,
                                table,
                                entries_insert(acc, key.text, item),
                            );
                        }
                    },
                }
            }
        }
    }
}

/// Blanks before a value do not matter: reading from a position gives
/// what reading from the first character after the blanks gives.
pub proof fn law_leading_blanks(chars: Seq<char>, from: int, table: Seq<TableEntry>)
    ensures
        value(chars, from, table) == value(chars, skip_spaces(chars, from), table),
{
    lemma_skip_spaces(chars, from);
    lemma_skip_spaces(chars, skip_spaces(chars, from));
    lemma_skip_idempotent(chars, from);
}

/// Skipping blanks twice skips no more than skipping them once.
proof fn lemma_skip_idempotent(chars: Seq<char>, from: int)
    ensures
        skip_spaces(chars, skip_spaces(chars, from)) == skip_spaces(chars, from),
    decreases chars.len() - from,
{
    if 0 <= from < chars.len() && is_space(chars[from]) {
        lemma_skip_idempotent(chars, from + 1);
    }
}

/// The characters from `a` up to `b` are a run of number characters that
/// is as long as it can be.
pub open spec fn is_run(chars: Seq<char>, a: int, b: int) -> bool {
    &&& 0 <= a < b <= chars.len()
    &&& forall|i: int| a <= i < b ==> is_number_char(#[trigger] chars[i])
    &&& a == 0 || !is_number_char(chars[a - 1])
    &&& b == chars.len() || !is_number_char(chars[b])
}

/// Two tables say the same of every run of number characters in the
/// text.
pub open spec fn agree_on_runs(
    chars: Seq<char>,
    one: Seq<TableEntry>,
    other: Seq<TableEntry>,
) -> bool {
    forall|a: int, b: int| #[trigger]
        is_run(chars, a, b) ==> table_lookup(one, chars.subrange(a, b), 0) == table_lookup(
            other,
            chars.subrange(a, b),
            0,
        )
}

/// No number character stands before the position.
pub open spec fn starts_run(chars: Seq<char>, from: int) -> bool {
    0 <= from && (from == 0 || from > chars.len() || !is_number_char(chars[from - 1]))
}

/// After blanks were skipped no number character stands before the
/// position, if none stood before.
proof fn lemma_skip_starts_run(chars: Seq<char>, from: int)
    requires
        starts_run(chars, from),
    ensures
        starts_run(chars, skip_spaces(chars, from)),
{
    lemma_skip_spaces(chars, from);
    let p = skip_spaces(chars, from);
    if p > from && p <= chars.len() {
        assert(is_space(chars[p - 1]));
    }
}

/// Reading a value asks the table only for runs of number characters:
/// two tables that agree on the runs of a text give the same reading.
proof fn lemma_value_agrees(
    chars: Seq<char>,
    from: int,
    one: Seq<TableEntry>,
    other: Seq<TableEntry>,
)
    requires
        agree_on_runs(chars, one, other),
        starts_run(chars, from),
    ensures
        value(chars, from, one) == value(chars, from, other),
    decreases chars.len() - from, 0nat,
{
    let p = skip_spaces(chars, from);
    lemma_skip_spaces(chars, from);
    lemma_skip_starts_run(chars, from);
    if 0 <= p < chars.len() {
        if chars[p] == 'n' || chars[p] == 't' || chars[p] == 'f' {
        } else if chars[p] == '[' {
            let q = skip_spaces(chars, p + 1);
            lemma_skip_spaces(chars, p + 1);
            lemma_skip_starts_run(chars, p + 1);
            if !(q < chars.len() && chars[q] == ']') {
                lemma_items_agree(chars, q, one, other, Seq::empty());
            }
        } else if chars[p] == '{' {
            let q = skip_spaces(chars, p + 1);
            lemma_skip_spaces(chars, p + 1);
            lemma_skip_starts_run(chars, p + 1);
            if !(q < chars.len() && chars[q] == '}') {
                lemma_members_agree(chars, q, one, other, Seq::empty());
            }
        } else if is_number_start(chars[p]) {
            lemma_token_end(chars, p);
            lemma_token_end(chars, p + 1);
            assert(is_run(chars, p, token_end(chars, p)));
        }
    }
}

/// Two tables that agree on the runs of a text read the same items.
proof fn lemma_items_agree(
    chars: Seq<char>,
    from: int,
    one: Seq<TableEntry>,
    other: Seq<TableEntry>,
    acc: Seq<Json>,
)
    requires
        agree_on_runs(chars, one, other),
        starts_run(chars, from),
    ensures
        crate::grammar::items(chars, from, one, acc) == crate::grammar::items(
            chars,
            from,
            other,
            acc,
        ),
    decreases chars.len() - from, 1nat,
{
    lemma_value_agrees(chars, from, one, other);
    match value(chars, from, one) {
        Parsed::Failed { .. } => {},
        Parsed::Done { value: item, pos, consumed } => {
            let next = if consumed {
                pos + 1
            } else {
                pos
            };
            let q = skip_spaces(chars, next);
            if q < chars.len() && chars[q] == ',' && q >= from {
                lemma_items_agree(chars, q + 1, one, other, acc.push(item));
            }
        },
    }
}

/// Two tables that agree on the runs of a text read the same members.
proof fn lemma_members_agree(
    chars: Seq<char>,
    from: int,
    one: Seq<TableEntry>,
    other: Seq<TableEntry>,
    acc: Seq<Entry>,
)
    requires
        agree_on_runs(chars, one, other),
        starts_run(chars, from),
    ensures
        members(chars, from, one, acc) == members(chars, from, other, acc),
    decreases chars.len() - from, 1nat,
{
    let p = skip_spaces(chars, from);
    lemma_skip_spaces(chars, from);
    if 0 <= p < chars.len() && chars[p] == '"' {
        let key = scan_string(chars, p + 1);
        lemma_scan_string(chars, p + 1);
        if key.closed {
            let c = skip_spaces(chars, key.pos + 1);
            lemma_skip_spaces(chars, key.pos + 1);
            if c < chars.len() && chars[c] == ':' {
                lemma_value_agrees(chars, c + 1, one, other);
                match value(chars, c + 1, one) {
                    Parsed::Failed { .. } => {},
                    Parsed::Done { value: item, pos, consumed } => {
                        let next = if consumed {
                            pos + 1
                        } else {
                            pos
                        };
                        let q = skip_spaces(chars, next);
                        if q < chars.len() && chars[q] == ',' && q >= from {
                            lemma_members_agree(
                                chars,
                                q + 1,
                                one,
                                other,
                                entries_insert(acc, key.text, item),
                            );
                        }
                    },
                }
            }
        }
    }
}

/// Every run of number characters at or after `from` is among the runs
/// that are found from `from` on.
proof fn lemma_runs_complete(chars: Seq<char>, from: int, a: int, b: int)
    requires
        is_run(chars, a, b),
        0 <= from <= a,
    ensures
        runs(chars, from).contains(chars.subrange(a, b)),
    decreases a - from,
{
    lemma_token_end(chars, from);
    lemma_token_end(chars, from + 1);
    let end = token_end(chars, from);
    if is_number_char(chars[from]) {
        let head = seq![chars.subrange(from, end)];
        let rest = runs(chars, end);
        if from == a {
            if end < b {
                assert(is_number_char(chars[end]));
            }
            if end > b {
                assert(is_number_char(chars[b]));
            }
            assert((head + rest)[0] == chars.subrange(a, b));
        } else {
            if end > a - 1 {
                assert(is_number_char(chars[a - 1]));
            }
            if end < a {
                assert(!is_number_char(chars[end]));
            }
            lemma_runs_complete(chars, end, a, b);
            let i = choose|i: int| 0 <= i < rest.len() && rest[i] == chars.subrange(a, b);
            assert((head + rest)[i + 1] == chars.subrange(a, b));
        }
    } else {
        lemma_runs_complete(chars, from + 1, a, b);
    }
}

/// A table need only know the runs of number characters of a text: two
/// tables that say the same of each of them parse the text alike.
pub proof fn law_tables_agree(chars: Seq<char>, one: Seq<TableEntry>, other: Seq<TableEntry>)
    requires
        forall|i: int|
            0 <= i < runs(chars, 0).len() ==> table_lookup(one, #[trigger] runs(chars, 0)[i], 0)
                == table_lookup(other, runs(chars, 0)[i], 0),
    ensures
        document(chars, one) == document(chars, other),
{
    assert forall|a: int, b: int| #[trigger] is_run(chars, a, b) implies table_lookup(
        one,
        chars.subrange(a, b),
        0,
    ) == table_lookup(other, chars.subrange(a, b), 0) by {
        lemma_runs_complete(chars, 0, a, b);
        let i = choose|i: int|
            0 <= i < runs(chars, 0).len() && runs(chars, 0)[i] == chars.subrange(a, b);
        assert(runs(chars, 0)[i] == chars.subrange(a, b));
    }
    lemma_value_agrees(chars, 0, one, other);
}

/// The bytes of an ASCII text: the code of each character.
pub open spec fn ascii_bytes(s: Seq<char>) -> Seq<u8> {
    Seq::new(s.len(), |i: int| s[i] as u8)
}

/// An ASCII text is encoded as the codes of its characters.
proof fn lemma_ascii_encoding(s: Seq<char>)
    requires
        is_ascii_chars(s),
    ensures
        encode_utf8(s) == ascii_bytes(s),
{
    is_ascii_chars_encode_utf8(s);
    assert(encode_utf8(s) =~= ascii_bytes(s));
}

/// Two ASCII texts in a row are an ASCII text, and its bytes are theirs in
/// a row.
proof fn lemma_ascii_join(a: Seq<char>, b: Seq<char>)
    requires
        is_ascii_chars(a),
        is_ascii_chars(b),
    ensures
        is_ascii_chars(a + b),
        ascii_bytes(a + b) == ascii_bytes(a) + ascii_bytes(b),
{
    assert forall|i: int| 0 <= i < (a + b).len() implies '\0' <= #[trigger] (a + b)[i]
        <= '\u{7f}' by {
        if i < a.len() {
            assert((a + b)[i] == a[i]);
        } else {
            assert((a + b)[i] == b[i - a.len()]);
        }
    }
    assert(ascii_bytes(a + b) =~= ascii_bytes(a) + ascii_bytes(b));
}

/// The characters of a representable string are written as the bytes of
/// what `render_chars` gives.
proof fn lemma_emit_chars(s: Seq<char>, k: int)
    requires
        representable_text(s),
        0 <= k <= s.len(),
    ensures
        is_ascii_chars(render_chars(s, k)),
        emit_chars(s, k) == Emitted::ok(ascii_bytes(render_chars(s, k))),
    decreases s.len() - k,
{
    if k < s.len() {
        let c = s[k];
        assert(representable_char(c));
        lemma_emit_chars(s, k + 1);
        let one = render_char(c);
        assert(is_ascii_chars(one));
        assert(escape(c) == Some(ascii_bytes(one))) by {
            assert(escape(c)->0 =~= ascii_bytes(one));
        }
        lemma_ascii_join(one, render_chars(s, k + 1));
    } else {
        assert(ascii_bytes(render_chars(s, k)) =~= Seq::<u8>::empty());
    }
}

/// A representable string is written as the bytes of what `render_string`
/// gives.
proof fn lemma_emit_string(s: Seq<char>)
    requires
        representable_text(s),
    ensures
        is_ascii_chars(render_string(s)),
        emit_string(s) == Emitted::ok(ascii_bytes(render_string(s))),
{
    lemma_emit_chars(s, 0);
    let quote = seq!['"'];
    assert(ascii_bytes(quote) =~= seq![QUOTE]);
    lemma_ascii_join(quote, render_chars(s, 0));
    lemma_ascii_join(quote + render_chars(s, 0), quote);
    assert(seq![QUOTE] + (ascii_bytes(render_chars(s, 0)) + seq![QUOTE]) =~= (seq![QUOTE]
        + ascii_bytes(render_chars(s, 0))) + seq![QUOTE]);
}

/// The bytes of a literal are the codes of its characters.
proof fn lemma_literal_bytes()
    ensures
        encode_utf8("null"@) == ascii_bytes(seq!['n', 'u', 'l', 'l']),
        encode_utf8("true"@) == ascii_bytes(seq!['t', 'r', 'u', 'e']),
        encode_utf8("false"@) == ascii_bytes(seq!['f', 'a', 'l', 's', 'e']),
        encode_utf8("[]"@) == ascii_bytes(seq!['[', ']']),
        encode_utf8("{}"@) == ascii_bytes(seq!['{', '}']),
{
    reveal_strlit("null");
    reveal_strlit("true");
    reveal_strlit("false");
    reveal_strlit("[]");
    reveal_strlit("{}");
    assert("null"@ =~= seq!['n', 'u', 'l', 'l']);
    assert("true"@ =~= seq!['t', 'r', 'u', 'e']);
    assert("false"@ =~= seq!['f', 'a', 'l', 's', 'e']);
    assert("[]"@ =~= seq!['[', ']']);
    assert("{}"@ =~= seq!['{', '}']);
    lemma_ascii_encoding("null"@);
    lemma_ascii_encoding("true"@);
    lemma_ascii_encoding("false"@);
    lemma_ascii_encoding("[]"@);
    lemma_ascii_encoding("{}"@);
}

/// A representable value is written compactly as the bytes of what
/// `render` gives.
proof fn lemma_emit_value(v: Json)
    requires
        v.wf(),
        representable(v),
    ensures
        is_ascii_chars(render(v)),
        emit_value(v, JsonSerializationStyle::Minimum) == Emitted::ok(ascii_bytes(render(v))),
    decreases v, 0nat,
{
    let style = JsonSerializationStyle::Minimum;
    lemma_literal_bytes();
    match v {
        Json::Null => {},
        Json::Boolean(_) => {},
        Json::Number(n) => {
            assert(is_ascii_chars(n.text)) by {
                assert forall|i: int| 0 <= i < n.text.len() implies '\0' <= #[trigger] n.text[i]
                    <= '\u{7f}' by {
                    assert(is_number_char(n.text[i]));
                }
            }
            lemma_ascii_encoding(n.text);
        },
        Json::String(s) => {
            lemma_emit_string(s);
        },
        Json::Array(items) => {
            if items.len() == 0 {
                assert(render(v) =~= seq!['[', ']']);
            } else {
                lemma_emit_items(items, 0);
                let inner = render_items(items, 0);
                lemma_ascii_join(seq!['['], inner);
                lemma_ascii_join(seq!['['] + inner, seq![']']);
                assert(ascii_bytes(seq!['[']) =~= seq![OPEN_BRACKET]);
                assert(ascii_bytes(seq![']']) =~= seq![CLOSE_BRACKET]);
                assert(line_break(style) + seq![CLOSE_BRACKET] =~= seq![CLOSE_BRACKET]);
                assert(seq![OPEN_BRACKET] + (ascii_bytes(inner) + seq![CLOSE_BRACKET]) =~= (
                    seq![OPEN_BRACKET] + ascii_bytes(inner)) + seq![CLOSE_BRACKET]);
            }
        },
        Json::Object(entries) => {
            if entries.len() == 0 {
                assert(render(v) =~= seq!['{', '}']);
            } else {
                lemma_emit_entries(entries, 0);
                let inner = render_entries(entries, 0);
                lemma_ascii_join(seq!['{'], inner);
                lemma_ascii_join(seq!['{'] + inner, seq!['}']);
                assert(ascii_bytes(seq!['{']) =~= seq![OPEN_BRACE]);
                assert(ascii_bytes(seq!['}']) =~= seq![CLOSE_BRACE]);
                assert(line_break(style) + seq![CLOSE_BRACE] =~= seq![CLOSE_BRACE]);
                assert(seq![OPEN_BRACE] + (ascii_bytes(inner) + seq![CLOSE_BRACE]) =~= (
                    seq![OPEN_BRACE] + ascii_bytes(inner)) + seq![CLOSE_BRACE]);
            }
        },
    }
}

/// The items of a representable array are written compactly as the bytes
/// of what `render_items` gives.
proof fn lemma_emit_items(items: Seq<Json>, k: int)
    requires
        Json::Array(items).wf(),
        representable(Json::Array(items)),
        0 <= k <= items.len(),
    ensures
        is_ascii_chars(render_items(items, k)),
        emit_items(items, k, JsonSerializationStyle::Minimum) == Emitted::ok(
            ascii_bytes(render_items(items, k)),
        ),
    decreases items, items.len() - k,
{
    let style = JsonSerializationStyle::Minimum;
    if k < items.len() {
        assert(Json::Array(items)->Array_0 == items);
        lemma_emit_value(items[k]);
        lemma_emit_items(items, k + 1);
        let comma = render_comma(k);
        let one = render(items[k]);
        let more = render_items(items, k + 1);
        assert(is_ascii_chars(comma));
        assert(separator(k, style) =~= ascii_bytes(comma));
        lemma_ascii_join(comma, one);
        lemma_ascii_join(comma + one, more);
        assert(ascii_bytes(comma) + (ascii_bytes(one) + ascii_bytes(more)) =~= (ascii_bytes(comma)
            + ascii_bytes(one)) + ascii_bytes(more));
    } else {
        assert(ascii_bytes(render_items(items, k)) =~= Seq::<u8>::empty());
    }
}

/// The entries of a representable object are written compactly as the
/// bytes of what `render_entries` gives.
proof fn lemma_emit_entries(entries: Seq<Entry>, k: int)
    requires
        Json::Object(entries).wf(),
        representable(Json::Object(entries)),
        0 <= k <= entries.len(),
    ensures
        is_ascii_chars(render_entries(entries, k)),
        emit_entries(entries, k, JsonSerializationStyle::Minimum) == Emitted::ok(
            ascii_bytes(render_entries(entries, k)),
        ),
    decreases entries, entries.len() - k,
{
    let style = JsonSerializationStyle::Minimum;
    if k < entries.len() {
        assert(Json::Object(entries)->Object_0 == entries);
        lemma_emit_string(entries[k].0);
        lemma_emit_value(entries[k].1);
        lemma_emit_entries(entries, k + 1);
        let comma = render_comma(k);
        let key = render_string(entries[k].0);
        let one = render(entries[k].1);
        let more = render_entries(entries, k + 1);
        assert(is_ascii_chars(comma));
        assert(is_ascii_chars(seq![':']));
        assert(separator(k, style) =~= ascii_bytes(comma));
        assert(colon(style) =~= ascii_bytes(seq![':']));
        lemma_ascii_join(comma, key);
        lemma_ascii_join(comma + key, seq![':']);
        lemma_ascii_join(comma + key + seq![':'], one);
        lemma_ascii_join(comma + key + seq![':'] + one, more);
        assert(ascii_bytes(comma) + (ascii_bytes(key) + (ascii_bytes(seq![':']) + (ascii_bytes(one)
            + ascii_bytes(more)))) =~= (((ascii_bytes(comma) + ascii_bytes(key)) + ascii_bytes(
            seq![':'],
        )) + ascii_bytes(one)) + ascii_bytes(more));
    } else {
        assert(ascii_bytes(render_entries(entries, k)) =~= Seq::<u8>::empty());
    }
}

/// A representable value is written compactly as the text that `render`
/// gives.
pub proof fn lemma_serialize_renders(v: Json)
    requires
        v.wf(),
        representable(v),
    ensures
        as_text(emit_document(v, JsonSerializationStyle::Minimum)) == Ok::<
            Seq<char>,
            SerializeError,
        >(render(v)),
{
    lemma_emit_value(v);
    lemma_ascii_encoding(render(v));
    lemma_followed_by_nothing(emit_value(v, JsonSerializationStyle::Minimum));
    encode_utf8_valid_utf8(render(v));
    encode_utf8_decode_utf8(render(v));
}

/// Round trip: a well-formed value whose strings are representable is
/// written compactly as a text, and that text is parsed back to the same
/// value, by any table that gives each of its numbers for the number's
/// text.
pub proof fn law_round_trip(v: Json, table: Seq<TableEntry>)
    requires
        v.wf(),
        representable(v),
        reads_back(table, v),
    ensures
        as_text(emit_document(v, JsonSerializationStyle::Minimum)) is Ok,
        document(as_text(emit_document(v, JsonSerializationStyle::Minimum))->Ok_0, table) == Ok::<
            Json,
            Failure,
        >(v),
{
    lemma_serialize_renders(v);
    let text = render(v);
    assert(holds(text, 0, text));
    lemma_value_rendered(text, 0, v, table);
}

/// Writing again what was written and parsed gives the same bytes.
pub proof fn law_reserialize(v: Json, table: Seq<TableEntry>)
    requires
        v.wf(),
        representable(v),
        reads_back(table, v),
    ensures
        as_text(emit_document(v, JsonSerializationStyle::Minimum)) is Ok,
        document(as_text(emit_document(v, JsonSerializationStyle::Minimum))->Ok_0, table) is Ok,
        emit_document(
            document(
                as_text(emit_document(v, JsonSerializationStyle::Minimum))->Ok_0,
                table,
            )->Ok_0,
            JsonSerializationStyle::Minimum,
        ) == emit_document(v, JsonSerializationStyle::Minimum),
{
    law_round_trip(v, table);
}

} // verus!
