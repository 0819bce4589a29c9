//! The parser: recursive descent over an input cursor, one function for
//! each production, reporting what it recognizes to a parse context.

use vstd::prelude::*;
use crate::grammar::{
    array, document, is_control, items, lemma_scan_string, lemma_token_end, lemma_value_within,
    members, number, object, runs, scan_string, token_end, value, ErrorKind, Failure, Parsed,
    Scanned,
};
use crate::input::{is_space, lemma_skip_spaces, skip_spaces, Input};
use crate::model::{entries_insert, Entry, Json};
use crate::number::{
    is_number_char_exec, is_number_start, is_number_start_exec, table_lookup, NumberTable,
    TableEntry,
};
use crate::text::{decimal, decimal_text};
use crate::value::{array_model, lemma_array_model, Object, Value};

verus! {

/// The parse context that builds a value tree: it holds the slot that the
/// value being read goes to, and the table that number tokens are read
/// through.
pub struct DefaultParseContext<'a> {
    /// The value built so far.
    pub out: Value,
    /// The table that number tokens are read through.
    pub numbers: &'a NumberTable,
}

impl<'a> DefaultParseContext<'a> {
    /// The entries of the number table.
    pub open spec fn table(&self) -> Seq<TableEntry> {
        self.numbers@
    }

    /// A context with `null` in its slot.
    pub fn new(numbers: &'a NumberTable) -> (r: DefaultParseContext<'a>)
        ensures
            r.out@ == Json::Null,
            r.table() == numbers@,
    {
        DefaultParseContext { out: Value::Null, numbers }
    }

    /// Takes a `null`.
    pub fn set_null(&mut self) -> (ok: bool)
        ensures
            ok,
            final(self).out@ == Json::Null,
            final(self).table() == old(self).table(),
    {
        self.out = Value::Null;
        true
    }

    /// Takes a boolean.
    pub fn set_bool(&mut self, value: bool) -> (ok: bool)
        ensures
            ok,
            final(self).out@ == Json::Boolean(value),
            final(self).table() == old(self).table(),
    {
        self.out = Value::Boolean(value);
        true
    }

    /// Takes the number that the table gives for `token`, and refuses the
    /// token if the table has none.
    pub fn set_number(&mut self, token: &str) -> (ok: bool)
        ensures
            match table_lookup(old(self).table(), token@, 0) {
                Some(n) => ok && final(self).out@ == Json::Number(n),
                None => !ok && final(self).out@ == old(self).out@,
            },
            final(self).table() == old(self).table(),
    {
        match self.numbers.lookup(token) {
            Some(n) => {
                self.out = Value::Number(n.clone());
                true
            },
            None => false,
        }
    }

    /// Takes a string.
    pub fn set_string(&mut self, value: String) -> (ok: bool)
        ensures
            ok,
            final(self).out@ == Json::String(value@),
            final(self).table() == old(self).table(),
    {
        self.out = Value::String(value);
        true
    }

    /// Starts an array: the slot holds an empty one.
    pub fn parse_array_start(&mut self) -> (ok: bool)
        ensures
            ok,
            final(self).out@ == Json::Array(Seq::empty()),
            final(self).table() == old(self).table(),
    {
        self.out = Value::Array(Vec::new());
        proof {
            lemma_array_model(Seq::<Value>::empty());
            assert(self.out@->Array_0 =~= Seq::<Json>::empty());
        }
        true
    }

    /// Ends an array of `size` items.
    pub fn parse_array_stop(&mut self, size: usize) -> (ok: bool)
        ensures
            ok,
            *final(self) == *old(self),
    {
        true
    }

    /// Reads one item of the array in the slot: a value, read with a
    /// context of its own, which is then appended. `size` is the number of
    /// items before it.
    pub fn parse_array_item(&mut self, input: &mut Input, size: usize) -> (ok: bool)
        requires
            old(self).out is Array,
        ensures
            final(self).table() == old(self).table(),
            ({
                let read = value(old(input)@.chars, old(input)@.cursor(), old(self).table());
                &&& ok == (read is Done)
                &&& ok ==> final(self).out@ == Json::Array(
                    old(self).out@->Array_0.push(read->Done_value),
                )
                &&& !ok ==> final(self).out@ == old(self).out@
                &&& final(input)@ == old(input)@.moved(read.pos(), read.consumed())
            }),
        decreases old(input)@.chars.len() - old(input)@.cursor(), 1nat,
    {
        let mut subcontext = DefaultParseContext::new(self.numbers);
        let ok = parse_input(&mut subcontext, input);
        if !ok {
            return false;
        }
        match &mut self.out {
            Value::Array(vec) => {
                let ghost before = vec@;
                vec.push(subcontext.out);
                proof {
                    lemma_array_model(before);
                    lemma_array_model(vec@);
                    assert(array_model(vec@) =~= array_model(before).push(subcontext.out@));
                }
            },
            _ => {},
        }
        true
    }

    /// Reads the value of one member of the object in the slot, with a
    /// context of its own, and puts it under `key`.
    pub fn parse_object_item(&mut self, input: &mut Input, key: String) -> (ok: bool)
        requires
            old(self).out is Object,
        ensures
            final(self).table() == old(self).table(),
            ({
                let read = value(old(input)@.chars, old(input)@.cursor(), old(self).table());
                &&& ok == (read is Done)
                &&& ok ==> final(self).out@ == Json::Object(
                    entries_insert(old(self).out@->Object_0, key@, read->Done_value),
                )
                &&& !ok ==> final(self).out@ == old(self).out@
                &&& final(input)@ == old(input)@.moved(read.pos(), read.consumed())
            }),
        decreases old(input)@.chars.len() - old(input)@.cursor(), 1nat,
    {
        let mut subcontext = DefaultParseContext::new(self.numbers);
        let ok = parse_input(&mut subcontext, input);
        if !ok {
            return false;
        }
        match &mut self.out {
            Value::Object(obj) => {
                obj.insert(key.as_str(), subcontext.out);
            },
            _ => {},
        }
        true
    }

    /// Starts an object: the slot holds an empty one.
    pub fn parse_object_start(&mut self) -> (ok: bool)
        ensures
            ok,
            final(self).out@ == Json::Object(Seq::empty()),
            final(self).table() == old(self).table(),
    {
        self.out = Value::Object(Object::new());
        true
    }
}

fn below_space(c: char) -> (r: bool)
    ensures
        r == is_control(c),
{
    !(' ' <= c)
}

/// Reads the longest run of number characters and pushes the character
/// after it back.
pub fn _read_digits(input: &mut Input) -> (r: String)
    ensures
        r@ == old(input)@.chars.subrange(
            old(input)@.cursor(),
            token_end(old(input)@.chars, old(input)@.cursor()),
        ),
        final(input)@ == old(input)@.moved(
            token_end(old(input)@.chars, old(input)@.cursor()),
            false,
        ),
{
    let mut num_str = String::new();
    proof {
        use_type_invariant(&*input);
        assert(num_str@ =~= input@.chars.subrange(input@.cursor(), input@.cursor()));
    }
    loop
        invariant
            input@.wf(),
            input@.chars == old(input)@.chars,
            input@.ends_after_read() == old(input)@.ends_after_read(),
            0 <= old(input)@.cursor() <= input@.cursor() <= input@.chars.len(),
            token_end(input@.chars, input@.cursor()) == token_end(
                input@.chars,
                old(input)@.cursor(),
            ),
            num_str@ == input@.chars.subrange(old(input)@.cursor(), input@.cursor()),
        decreases input@.chars.len() - input@.cursor(),
    {
        match input.getc() {
            Some(ch) => {
                if is_number_char_exec(ch) {
                    num_str.push(ch);
                    proof {
                        use_type_invariant(&*input);
                        assert(num_str@ =~= input@.chars.subrange(
                            old(input)@.cursor(),
                            input@.cursor(),
                        ));
                    }
                } else {
                    input.ungetc();
                    return num_str;
                }
            },
            None => {
                input.ungetc();
                return num_str;
            },
        }
    }
}

/// Reads a number whose first character `ch` was just delivered: the
/// token is read again from that character on and handed to the context.
/// A token that the context refuses leaves the slot as it was.
pub fn _parse_number(ch: char, context: &mut DefaultParseContext, input: &mut Input) -> (ok: bool)
    ensures
        final(context).table() == old(context).table(),
        !ok ==> final(context).out@ == old(context).out@,
        is_number_start(ch) ==> ({
            let before = old(input)@.ungetc();
            let read = number(before.chars, before.cursor(), old(context).table());
            &&& ok == (read is Done)
            &&& final(context).out@ == read.slot(old(context).out@)
            &&& final(input)@ == before.moved(read.pos(), false)
        }),
        !is_number_start(ch) ==> !ok && final(input)@ == old(input)@,
{
    if is_number_start_exec(ch) {
        input.ungetc();
        proof {
            use_type_invariant(&*input);
            lemma_token_end(input@.chars, input@.cursor());
        }
        let num_str = _read_digits(input);
        if num_str.as_str().is_empty() {
            return false;
        }
        context.set_number(num_str.as_str())
    } else {
        false
    }
}

/// Reads the inside of a string, up to the closing quote, and appends what
/// it reads to `out`.
pub fn _parse_string(out: &mut String, input: &mut Input) -> (ok: bool)
    ensures
        ok == scan_string(old(input)@.chars, old(input)@.cursor()).closed,
        final(out)@ == old(out)@ + scan_string(old(input)@.chars, old(input)@.cursor()).text,
        final(input)@ == old(input)@.moved(
            scan_string(old(input)@.chars, old(input)@.cursor()).pos,
            scan_string(old(input)@.chars, old(input)@.cursor()).consumed,
        ),
{
    proof {
        use_type_invariant(&*input);
        assert(out@ =~= old(out)@ + Seq::<char>::empty());
    }
    let ghost whole = scan_string(old(input)@.chars, old(input)@.cursor());
    let ghost read: Seq<char> = Seq::empty();
    loop
        invariant
            input@.wf(),
            input@.chars == old(input)@.chars,
            input@.ends_after_read() == old(input)@.ends_after_read(),
            input@.cursor() <= input@.chars.len(),
            whole == scan_string(old(input)@.chars, old(input)@.cursor()),
            out@ == old(out)@ + read,
            whole == (Scanned {
                text: read + scan_string(input@.chars, input@.cursor()).text,
                ..scan_string(input@.chars, input@.cursor())
            }),
        decreases input@.chars.len() - input@.cursor(),
    {
        let ghost here = input@.cursor();
        let ghost rest = scan_string(input@.chars, here);
        match input.getc() {
            None => {
                input.ungetc();
                proof {
                    assert(read + rest.text =~= read);
                }
                return false;
            },
            Some(ch) => {
                if below_space(ch) {
                    input.ungetc();
                    proof {
                        assert(read + rest.text =~= read);
                    }
                    return false;
                } else if ch == '"' {
                    proof {
                        assert(read + rest.text =~= read);
                    }
                    return true;
                } else if ch == '\\' {
                    proof {
                        use_type_invariant(&*input);
                    }
                    let escaped = input.getc();
                    let c = match escaped {
                        Some('"') => '"',
                        Some('\\') => '\\',
                        Some('/') => '/',
                        Some('n') => '\n',
                        Some('r') => '\r',
                        Some('t') => '\t',
                        _ => {
                            proof {
                                assert(read + rest.text =~= read);
                            }
                            return false;
                        },
                    };
                    out.push(c);
                    proof {
                        use_type_invariant(&*input);
                        let next = scan_string(input@.chars, here + 2);
                        assert(rest == next.after(c));
                        assert(read + rest.text =~= read.push(c) + next.text);
                        read = read.push(c);
                        assert(out@ =~= old(out)@ + read);
                    }
                } else {
                    out.push(ch);
                    proof {
                        use_type_invariant(&*input);
                        let next = scan_string(input@.chars, here + 1);
                        assert(rest == next.after(ch));
                        assert(read + rest.text =~= read.push(ch) + next.text);
                        read = read.push(ch);
                        assert(out@ =~= old(out)@ + read);
                    }
                }
            },
        }
    }
}

/// Reads an array whose opening bracket was just delivered. Where the
/// reading fails, the slot holds the items taken before the failure.
pub fn _parse_array(ctx: &mut DefaultParseContext, input: &mut Input) -> (ok: bool)
    ensures
        final(ctx).table() == old(ctx).table(),
        ({
            let read = array(old(input)@.chars, old(input)@.cursor(), old(ctx).table());
            &&& ok == (read is Done)
            &&& final(ctx).out@ == read.slot(old(ctx).out@)
            &&& final(input)@ == old(input)@.moved(read.pos(), read.consumed())
        }),
    decreases old(input)@.chars.len() - old(input)@.cursor(), 2nat,
{
    proof {
        use_type_invariant(&*input);
        lemma_skip_spaces(input@.chars, input@.cursor());
    }
    if !ctx.parse_array_start() {
        return false;
    }
    let mut index: usize = 0;
    if input.expect(']') {
        return ctx.parse_array_stop(index);
    }
    let ghost whole = array(old(input)@.chars, old(input)@.cursor(), old(ctx).table());
    let ghost acc: Seq<Json> = Seq::empty();
    loop
        invariant_except_break
            whole == items(input@.chars, input@.cursor(), ctx.table(), acc),
        invariant
            input@.wf(),
            input@.chars == old(input)@.chars,
            input@.ends_after_read() == old(input)@.ends_after_read(),
            old(input)@.cursor() <= input@.cursor() <= input@.chars.len(),
            0 <= old(input)@.cursor(),
            ctx.table() == old(ctx).table(),
            ctx.out@ == Json::Array(acc),
            index <= input@.cursor(),
            whole == array(old(input)@.chars, old(input)@.cursor(), old(ctx).table()),
        ensures
            match whole {
                Parsed::Done { pos, .. } => pos == input@.cursor() && pos < input@.chars.len()
                    && input@.chars[pos] == ']' && !is_space(input@.chars[pos])
                    && whole->Done_value == ctx.out@ && whole->Done_consumed,
                Parsed::Failed { pos, consumed, left } => !consumed && pos == input@.cursor()
                    && left == Some(ctx.out@) && (pos < input@.chars.len() ==> input@.chars[pos]
                    != ']' && !is_space(input@.chars[pos])),
            },
            !input@.consumed,
        decreases input@.chars.len() - input@.cursor(),
    {
        let ghost from = input@.cursor();
        proof {
            lemma_value_within(input@.chars, from, ctx.table());
        }
        if !ctx.parse_array_item(input, index) {
            return false;
        }
        proof {
            use_type_invariant(&*input);
            lemma_skip_spaces(input@.chars, input@.cursor());
            let ghost item = value(input@.chars, from, ctx.table())->Done_value;
            acc = acc.push(item);
        }
        index += 1;
        if !input.expect(',') {
            break ;
        }
        proof {
            use_type_invariant(&*input);
        }
    }
    if !input.expect(']') {
        return false;
    }
    if !ctx.parse_array_stop(index) {
        return false;
    }
    true
}

/// Reads an object whose opening brace was just delivered. Where the
/// reading fails, the slot holds the entries taken before the failure.
pub fn _parse_object(context: &mut DefaultParseContext, input: &mut Input) -> (ok: bool)
    ensures
        final(context).table() == old(context).table(),
        ({
            let read = object(old(input)@.chars, old(input)@.cursor(), old(context).table());
            &&& ok == (read is Done)
            &&& final(context).out@ == read.slot(old(context).out@)
            &&& final(input)@ == old(input)@.moved(read.pos(), read.consumed())
        }),
    decreases old(input)@.chars.len() - old(input)@.cursor(), 2nat,
{
    proof {
        use_type_invariant(&*input);
        lemma_skip_spaces(input@.chars, input@.cursor());
    }
    if !context.parse_object_start() {
        return false;
    }
    if input.expect('}') {
        return true;
    }
    let ghost whole = object(old(input)@.chars, old(input)@.cursor(), old(context).table());
    let ghost acc: Seq<Entry> = Seq::empty();
    loop
        invariant_except_break
            whole == members(input@.chars, input@.cursor(), context.table(), acc),
        invariant
            input@.wf(),
            input@.chars == old(input)@.chars,
            input@.ends_after_read() == old(input)@.ends_after_read(),
            old(input)@.cursor() <= input@.cursor() <= input@.chars.len(),
            0 <= old(input)@.cursor(),
            context.table() == old(context).table(),
            context.out@ == Json::Object(acc),
            whole == object(old(input)@.chars, old(input)@.cursor(), old(context).table()),
        ensures
            match whole {
                Parsed::Done { pos, .. } => pos == input@.cursor() && pos < input@.chars.len()
                    && input@.chars[pos] == '}' && !is_space(input@.chars[pos])
                    && whole->Done_value == context.out@ && whole->Done_consumed,
                Parsed::Failed { pos, consumed, left } => !consumed && pos == input@.cursor()
                    && left == Some(context.out@) && (pos < input@.chars.len()
                    ==> input@.chars[pos] != '}' && !is_space(input@.chars[pos])),
            },
            !input@.consumed,
        decreases input@.chars.len() - input@.cursor(),
    {
        let ghost from = input@.cursor();
        proof {
            lemma_skip_spaces(input@.chars, from);
        }
        let mut key = String::new();
        if !input.expect('"') {
            return false;
        }
        proof {
            use_type_invariant(&*input);
            lemma_scan_string(input@.chars, input@.cursor());
        }
        if !_parse_string(&mut key, input) {
            return false;
        }
        proof {
            use_type_invariant(&*input);
            lemma_skip_spaces(input@.chars, input@.cursor());
            assert(key@ =~= scan_string(input@.chars, skip_spaces(input@.chars, from) + 1).text);
        }
        if !input.expect(':') {
            return false;
        }
        let ghost start = input@.cursor();
        proof {
            use_type_invariant(&*input);
            lemma_value_within(input@.chars, start, context.table());
        }
        if !context.parse_object_item(input, key) {
            return false;
        }
        proof {
            use_type_invariant(&*input);
            lemma_skip_spaces(input@.chars, input@.cursor());
            let ghost item = value(input@.chars, start, context.table())->Done_value;
            acc = entries_insert(acc, key@, item);
        }
        if !input.expect(',') {
            break ;
        }
        proof {
            use_type_invariant(&*input);
        }
    }
    if !input.expect('}') {
        return false;
    }
    true
}

/// Reads one value: skips blanks and goes on with the production that the
/// next character selects. Nothing is reported to the context before a
/// value is recognized: a misspelt literal, a string that does not close,
/// a number that the table lacks, or a character that starts no value
/// leaves the slot as it was. An array or an object is reported when it
/// opens, so a failure inside it leaves what it had taken by then.
pub fn parse_input(ctx: &mut DefaultParseContext, input: &mut Input) -> (ok: bool)
    ensures
        final(ctx).table() == old(ctx).table(),
        ({
            let read = value(old(input)@.chars, old(input)@.cursor(), old(ctx).table());
            &&& ok == (read is Done)
            &&& final(ctx).out@ == read.slot(old(ctx).out@)
            &&& final(input)@ == old(input)@.moved(read.pos(), read.consumed())
        }),
    decreases old(input)@.chars.len() - old(input)@.cursor(), 0nat,
{
    proof {
        use_type_invariant(&*input);
        lemma_skip_spaces(input@.chars, input@.cursor());
        reveal_strlit("ull");
        reveal_strlit("rue");
        reveal_strlit("alse");
    }
    input.skip_ws();
    proof {
        use_type_invariant(&*input);
    }
    match input.getc() {
        None => {
            input.ungetc();
            false
        },
        Some(ch) => {
            proof {
                use_type_invariant(&*input);
            }
            if ch == 'n' {
                if input.does_match("ull") {
                    ctx.set_null();
                    true
                } else {
                    false
                }
            } else if ch == 't' {
                if input.does_match("rue") {
                    ctx.set_bool(true);
                    true
                } else {
                    false
                }
            } else if ch == 'f' {
                if input.does_match("alse") {
                    ctx.set_bool(false);
                    true
                } else {
                    false
                }
            } else if ch == '[' {
                _parse_array(ctx, input)
            } else if ch == '{' {
                _parse_object(ctx, input)
            } else if is_number_start_exec(ch) {
                _parse_number(ch, ctx, input)
            } else if ch == '"' {
                let mut out = String::new();
                proof {
                    lemma_scan_string(input@.chars, input@.cursor());
                }
                if _parse_string(&mut out, input) {
                    ctx.set_string(out)
                } else {
                    false
                }
            } else {
                input.ungetc();
                false
            }
        },
    }
}

/// The texts of a list of strings.
pub open spec fn texts(list: Seq<String>) -> Seq<Seq<char>> {
    Seq::new(list.len(), |i: int| list[i]@)
}

/// Finds the runs of number characters in `s`. A number token that the
/// parser reads from `s` is one of them, so a table that has an entry for
/// each run that is a number serves to parse `s`.
pub fn number_tokens(s: &str) -> (r: Vec<String>)
    ensures
        texts(r@) == runs(s@, 0),
{
    let mut input = Input::new(s);
    let mut out: Vec<String> = Vec::new();
    proof {
        use_type_invariant(&input);
        assert(texts(out@) =~= Seq::<Seq<char>>::empty());
    }
    loop
        invariant
            input@.wf(),
            input@.chars == s@,
            !input@.end,
            0 <= input@.cursor() <= s@.len(),
            texts(out@) + runs(s@, input@.cursor()) == runs(s@, 0),
        decreases s@.len() - input@.cursor(),
    {
        let ghost here = input@.cursor();
        let ghost before = texts(out@);
        match input.getc() {
            None => {
                assert(before + Seq::<Seq<char>>::empty() =~= before);
                return out;
            },
            Some(c) => {
                proof {
                    use_type_invariant(&input);
                }
                if is_number_char_exec(c) {
                    input.ungetc();
                    proof {
                        use_type_invariant(&input);
                        lemma_token_end(s@, here);
                        lemma_token_end(s@, here + 1);
                    }
                    let token = _read_digits(&mut input);
                    proof {
                        use_type_invariant(&input);
                    }
                    out.push(token);
                    proof {
                        let end = token_end(s@, here);
                        assert(texts(out@) =~= before.push(s@.subrange(here, end)));
                        assert(before + (seq![s@.subrange(here, end)] + runs(s@, end)) =~= texts(
                            out@,
                        ) + runs(s@, end));
                    }
                }
            },
        }
    }
}

/// Why a text could not be parsed, and where.
#[derive(Debug)]
pub struct ParseError {
    /// What went wrong.
    pub kind: ErrorKind,
    /// The line on which reading stopped, counted from 1.
    pub line: u64,
    /// The text from where reading stopped to the end of that line.
    pub near: String,
}

impl View for ParseError {
    type V = Failure;

    open spec fn view(&self) -> Failure {
        Failure { kind: self.kind, line: self.line as int, near: self.near@ }
    }
}

/// The message for a failure: what went wrong, the line, and the text near
/// it.
pub open spec fn message_text(failure: Failure) -> Seq<char> {
    let head = match failure.kind {
        ErrorKind::SyntaxError => "Syntax error at line "@,
        ErrorKind::UnsupportedEscape => "Unsupported escape at line "@,
    };
    head + decimal_text(failure.line as nat) + " near: "@ + failure.near
}

impl ParseError {
    /// The message for this failure.
    pub fn message(&self) -> (r: String)
        ensures
            r@ == message_text(self@),
    {
        let mut out = match self.kind {
            ErrorKind::SyntaxError => String::from_str("Syntax error at line "),
            ErrorKind::UnsupportedEscape => String::from_str("Unsupported escape at line "),
        };
        let line = decimal(self.line);
        out.append(line.as_str());
        out.append(" near: ");
        out.append(self.near.as_str());
        out
    }
}

/// Parses the first value of `s`, reading number tokens through
/// `numbers`.
pub fn parse(s: &str, numbers: &NumberTable) -> (r: Result<Value, ParseError>)
    ensures
        match document(s@, numbers@) {
            Ok(v) => r is Ok && r->Ok_0@ == v,
            Err(f) => r is Err && r->Err_0@ == f,
        },
{
    let mut context = DefaultParseContext::new(numbers);
    let mut input = Input::new(s);
    let ok = parse_input(&mut context, &mut input);
    if ok {
        Ok(context.out)
    } else {
        proof {
            use_type_invariant(&input);
        }
        let kind = match input.held() {
            Some('u') => ErrorKind::UnsupportedEscape,
            _ => ErrorKind::SyntaxError,
        };
        input.ungetc();
        let line = input.line();
        let near = input.read_line();
        Err(ParseError { kind, line, near })
    }
}

/// Parses the first value of `s`, and reports a failure as its message.
pub fn parse_string(s: &str, numbers: &NumberTable) -> (r: Result<Value, String>)
    ensures
        match document(s@, numbers@) {
            Ok(v) => r is Ok && r->Ok_0@ == v,
            Err(f) => r is Err && r->Err_0@ == message_text(f),
        },
{
    match parse(s, numbers) {
        Ok(value) => Ok(value),
        Err(e) => Err(e.message()),
    }
}

} // verus!
