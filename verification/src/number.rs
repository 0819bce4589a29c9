//! JSON numbers and the table through which the parser reads them.
//!
//! A number is a finite IEEE-754 double-precision value, held as its 64-bit
//! pattern together with the decimal text it is written as. Converting one
//! into the other is floating-point work that the host does; what the
//! library checks is that the pattern is finite and that the text is a
//! token the grammar reads back in one piece.

use vstd::prelude::*;
use vstd::arithmetic::power2::{lemma2_to64, lemma_pow2_unfold, pow2};
use crate::text::{decimal, decimal_text, lemma_decimal_text, to_chars};

verus! {

/// The pattern without its sign bit.
pub open spec fn magnitude(bits: u64) -> int {
    if bits >= 0x8000_0000_0000_0000 {
        bits - 0x8000_0000_0000_0000
    } else {
        bits as int
    }
}

/// The pattern is a NaN: all exponent bits set and a fraction that is not
/// zero.
pub open spec fn is_nan_bits(bits: u64) -> bool {
    magnitude(bits) > 0x7ff0_0000_0000_0000
}

/// The pattern is positive or negative infinity.
pub open spec fn is_infinite_bits(bits: u64) -> bool {
    magnitude(bits) == 0x7ff0_0000_0000_0000
}

/// The pattern is zero, subnormal or normal.
pub open spec fn is_finite_bits(bits: u64) -> bool {
    magnitude(bits) < 0x7ff0_0000_0000_0000
}

/// An integer that orders finite patterns as IEEE-754 orders the values
/// they stand for: the magnitude, negated where the sign bit is set. Both
/// zeros have key 0.
pub open spec fn order_key(bits: u64) -> int {
    if bits >= 0x8000_0000_0000_0000 {
        -magnitude(bits)
    } else {
        magnitude(bits)
    }
}

/// The pattern stands for the integer `n`: zero for zero, and else the
/// sign of `n`, with an exponent field `e` and a fraction field `f` such
/// that `(2^52 + f) * 2^(e - 1075)` is the magnitude of `n`.
pub open spec fn represents(bits: u64, n: int) -> bool {
    if n == 0 {
        bits == 0
    } else {
        let exponent = magnitude(bits) / 0x10_0000_0000_0000;
        let fraction = magnitude(bits) % 0x10_0000_0000_0000;
        &&& (bits >= 0x8000_0000_0000_0000) == (n < 0)
        &&& 1 <= exponent <= 1075
        &&& 0x10_0000_0000_0000 + fraction == (if n < 0 {
            -n
        } else {
            n
        }) * pow2((1075 - exponent) as nat)
    }
}

/// An integer in decimal, as a double-precision number that holds it is
/// written.
pub open spec fn int_text(n: int) -> Seq<char> {
    if n < 0 {
        seq!['-'] + decimal_text((-n) as nat)
    } else {
        decimal_text(n as nat)
    }
}

/// A character that may occur in a number token.
pub open spec fn is_number_char(c: char) -> bool {
    ('0' <= c && c <= '9') || c == '+' || c == '-' || c == 'e' || c == 'E' || c == '.'
}

/// A character on which the grammar starts reading a number.
pub open spec fn is_number_start(c: char) -> bool {
    ('0' <= c && c <= '9') || c == '-'
}

/// A text that the grammar reads as one number token: not empty, opened by
/// a digit or a minus sign, made of number characters only.
pub open spec fn is_number_token(t: Seq<char>) -> bool {
    &&& t.len() > 0
    &&& is_number_start(t[0])
    &&& forall|i: int| 0 <= i < t.len() ==> is_number_char(#[trigger] t[i])
}

/// What a number is: its bit pattern and its decimal text.
pub ghost struct NumberModel {
    pub bits: u64,
    pub text: Seq<char>,
}

impl NumberModel {
    /// The pattern is finite and the text is a number token.
    pub open spec fn wf(self) -> bool {
        is_finite_bits(self.bits) && is_number_token(self.text)
    }

    /// Numeric equality of two finite numbers.
    pub open spec fn same(self, other: NumberModel) -> bool {
        order_key(self.bits) == order_key(other.bits)
    }
}

/// Why a bit pattern and a text do not make a number.
#[derive(Debug, Clone, Copy, PartialEq, Eq)]
pub enum NumberError {
    /// The pattern is a NaN.
    NotANumber,
    /// The pattern is an infinity.
    Infinite,
    /// The text is not a number token.
    MalformedText,
}

/// The error that `Number::new` gives for a pattern and a text, if any. A
/// NaN is reported before an infinity, and both before a malformed text.
pub open spec fn number_error(bits: u64, text: Seq<char>) -> Option<NumberError> {
    if is_nan_bits(bits) {
        Some(NumberError::NotANumber)
    } else if is_infinite_bits(bits) {
        Some(NumberError::Infinite)
    } else if !is_number_token(text) {
        Some(NumberError::MalformedText)
    } else {
        None
    }
}

pub(crate) fn is_number_char_exec(c: char) -> (r: bool)
    ensures
        r == is_number_char(c),
{
    ('0' <= c && c <= '9') || c == '+' || c == '-' || c == 'e' || c == 'E' || c == '.'
}

pub(crate) fn is_number_start_exec(c: char) -> (r: bool)
    ensures
        r == is_number_start(c),
{
    ('0' <= c && c <= '9') || c == '-'
}

/// Decides whether `text` is a number token.
pub fn check_number_token(text: &str) -> (r: bool)
    ensures
        r == is_number_token(text@),
{
    let chars = to_chars(text);
    if chars.len() == 0 {
        return false;
    }
    if !is_number_start_exec(chars[0]) {
        return false;
    }
    let mut i: usize = 0;
    while i < chars.len()
        invariant
            i <= chars.len(),
            chars@ == text@,
            forall|j: int| 0 <= j < i ==> is_number_char(#[trigger] chars@[j]),
        decreases chars.len() - i,
    {
        if !is_number_char_exec(chars[i]) {
            return false;
        }
        i += 1;
    }
    true
}

/// A finite double-precision number with its decimal text.
#[derive(Debug)]
pub struct Number {
    bits: u64,
    text: String,
}

impl View for Number {
    type V = NumberModel;

    closed spec fn view(&self) -> NumberModel {
        NumberModel { bits: self.bits, text: self.text@ }
    }
}

impl Clone for Number {
    fn clone(&self) -> (r: Self)
        ensures
            r@ == self@,
    {
        Number { bits: self.bits, text: self.text.clone() }
    }
}

impl Number {
    /// Makes a number of a bit pattern and its text, or says why they are
    /// none.
    pub fn new(bits: u64, text: &str) -> (r: Result<Number, NumberError>)
        ensures
            match number_error(bits, text@) {
                Some(e) => r == Err::<Number, NumberError>(e),
                None => r is Ok && r->Ok_0@ == (NumberModel { bits, text: text@ }) && r->Ok_0@.wf(),
            },
    {
        let abs: u64 = if bits >= 0x8000_0000_0000_0000 {
            bits - 0x8000_0000_0000_0000
        } else {
            bits
        };
        if abs > 0x7ff0_0000_0000_0000 {
            Err(NumberError::NotANumber)
        } else if abs == 0x7ff0_0000_0000_0000 {
            Err(NumberError::Infinite)
        } else if !check_number_token(text) {
            Err(NumberError::MalformedText)
        } else {
            Ok(Number { bits, text: text.to_owned() })
        }
    }

    /// The number that is the integer `n`.
    pub fn from_i32(n: i32) -> (r: Number)
        ensures
            represents(r@.bits, n as int),
            r@.text == int_text(n as int),
            r@.wf(),
    {
        let negative = n < 0;
        let wide: i64 = n as i64;
        let m: u64 = if negative {
            (-wide) as u64
        } else {
            wide as u64
        };
        let mut bits: u64 = 0;
        if m != 0 {
            let mut scaled: u64 = m;
            let mut exponent: u64 = 1075;
            let ghost k: nat = 0;
            proof {
                lemma2_to64();
            }
            while scaled < 0x10_0000_0000_0000
                invariant
                    0 < scaled < 0x20_0000_0000_0000,
                    scaled == m * pow2(k),
                    exponent == 1075 - k,
                    k <= 52,
                    scaled < 0x10_0000_0000_0000 ==> k < 52,
                    0 < m <= 0x8000_0000,
                decreases 52 - k,
            {
                proof {
                    lemma_pow2_unfold(k + 1);
                    assert(m * (2 * pow2(k)) == 2 * (m * pow2(k))) by (nonlinear_arith);
                    if k + 1 == 52 {
                        lemma_pow2_52();
                        assert(m * pow2(52) >= pow2(52)) by (nonlinear_arith)
                            requires
                                m >= 1,
                        ;
                    }
                    k = k + 1;
                }
                scaled = scaled * 2;
                exponent = exponent - 1;
            }
            let fraction: u64 = scaled - 0x10_0000_0000_0000;
            let mag: u64 = exponent * 0x10_0000_0000_0000 + fraction;
            assert(mag / 0x10_0000_0000_0000 == exponent && mag % 0x10_0000_0000_0000 == fraction)
                by (nonlinear_arith)
                requires
                    mag == exponent * 0x10_0000_0000_0000 + fraction,
                    0 <= fraction < 0x10_0000_0000_0000,
                    0 <= exponent,
            ;
            bits = if negative {
                mag + 0x8000_0000_0000_0000
            } else {
                mag
            };
        }
        let digits = decimal(m);
        proof {
            lemma_decimal_text(m as nat);
        }
        let text = if negative {
            let mut signed = String::from_str("-");
            proof {
                reveal_strlit("-");
            }
            signed.append(digits.as_str());
            assert(signed@ =~= seq!['-'] + decimal_text(m as nat));
            signed
        } else {
            digits
        };
        Number { bits, text }
    }

    /// The IEEE-754 bit pattern.
    pub fn bits(&self) -> (r: u64)
        ensures
            r == self@.bits,
    {
        self.bits
    }

    /// The decimal text.
    pub fn text(&self) -> (r: &str)
        ensures
            r@ == self@.text,
    {
        self.text.as_str()
    }

    /// Numeric equality: the patterns are equal, or both are zeros.
    pub fn same(&self, other: &Number) -> (r: bool)
        ensures
            r == self@.same(other@),
    {
        let a = self.bits;
        let b = other.bits;
        if a >= 0x8000_0000_0000_0000 && b >= 0x8000_0000_0000_0000 {
            a == b
        } else if a >= 0x8000_0000_0000_0000 {
            a == 0x8000_0000_0000_0000 && b == 0
        } else if b >= 0x8000_0000_0000_0000 {
            b == 0x8000_0000_0000_0000 && a == 0
        } else {
            a == b
        }
    }

    /// Numeric order: whether `self` is less than `other`.
    pub fn less(&self, other: &Number) -> (r: bool)
        ensures
            r == (order_key(self@.bits) < order_key(other@.bits)),
    {
        let a = self.bits;
        let b = other.bits;
        if a >= 0x8000_0000_0000_0000 && b >= 0x8000_0000_0000_0000 {
            a > b
        } else if a >= 0x8000_0000_0000_0000 {
            !(a == 0x8000_0000_0000_0000 && b == 0)
        } else if b >= 0x8000_0000_0000_0000 {
            false
        } else {
            a < b
        }
    }
}

/// One pattern at most stands for an integer.
pub proof fn lemma_represents_one(a: u64, b: u64, n: int)
    requires
        represents(a, n),
    ensures
        represents(b, n) ==> a == b,
{
    if n != 0 && represents(b, n) {
        let m = if n < 0 {
            -n
        } else {
            n
        };
        let ea = magnitude(a) / 0x10_0000_0000_0000;
        let eb = magnitude(b) / 0x10_0000_0000_0000;
        let fa = magnitude(a) % 0x10_0000_0000_0000;
        let fb = magnitude(b) % 0x10_0000_0000_0000;
        if ea < eb {
            lemma_pow2_grows(m, (1075 - eb) as nat, (1075 - ea) as nat);
        }
        if eb < ea {
            lemma_pow2_grows(m, (1075 - ea) as nat, (1075 - eb) as nat);
        }
        assert(ea == eb);
        assert(fa == fb);
        assert(magnitude(a) == ea * 0x10_0000_0000_0000 + fa) by (nonlinear_arith)
            requires
                ea == magnitude(a) / 0x10_0000_0000_0000,
                fa == magnitude(a) % 0x10_0000_0000_0000,
        ;
        assert(magnitude(b) == eb * 0x10_0000_0000_0000 + fb) by (nonlinear_arith)
            requires
                eb == magnitude(b) / 0x10_0000_0000_0000,
                fb == magnitude(b) % 0x10_0000_0000_0000,
        ;
    }
}

/// A magnitude scaled by a larger power of two is at least twice as
/// large.
proof fn lemma_pow2_grows(m: int, small: nat, large: nat)
    requires
        m > 0,
        small < large,
    ensures
        m * pow2(large) >= 2 * (m * pow2(small)),
{
    vstd::arithmetic::power2::lemma_pow2_adds(small, (large - small) as nat);
    vstd::arithmetic::power2::lemma_pow2_pos(small);
    lemma2_to64();
    if large - small > 1 {
        vstd::arithmetic::power2::lemma_pow2_strictly_increases(1, (large - small) as nat);
    }
    let d = pow2((large - small) as nat);
    let s = pow2(small);
    assert(d >= 2);
    assert(m * (s * d) >= 2 * (m * s)) by (nonlinear_arith)
        requires
            m > 0,
            s > 0,
            d >= 2,
    ;
}

proof fn lemma_pow2_52()
    ensures
        pow2(52) == 0x10_0000_0000_0000,
{
    lemma2_to64();
    vstd::arithmetic::power2::lemma_pow2_adds(32, 20);
}

/// An entry of a number table, as a pair of plain values.
pub type TableEntry = (Seq<char>, NumberModel);

/// The number that the first entry for `token` gives, from entry `from` on.
pub open spec fn table_lookup(
    entries: Seq<TableEntry>,
    token: Seq<char>,
    from: int,
) -> Option<NumberModel>
    decreases entries.len() - from,
{
    if from < 0 || from >= entries.len() {
        None
    } else if entries[from].0 == token {
        Some(entries[from].1)
    } else {
        table_lookup(entries, token, from + 1)
    }
}

/// Every number in the table is well formed.
pub open spec fn table_wf(entries: Seq<TableEntry>) -> bool {
    forall|i: int| 0 <= i < entries.len() ==> (#[trigger] entries[i]).1.wf()
}

/// The numbers that tokens denote, as the host read them: the parser asks
/// this table and nothing else for the value of a number token.
#[derive(Debug)]
pub struct NumberTable {
    entries: Vec<(String, Number)>,
}

impl NumberTable {
    /// The entries as plain values, in the order they were added.
    pub closed spec fn view(&self) -> Seq<TableEntry> {
        Seq::new(self.entries@.len(), |i: int| (self.entries@[i].0@, self.entries@[i].1@))
    }

    /// What the table says of `token`.
    pub open spec fn get(&self, token: Seq<char>) -> Option<NumberModel> {
        table_lookup(self@, token, 0)
    }

    /// A table without entries.
    pub fn new() -> (r: NumberTable)
        ensures
            r@ == Seq::<TableEntry>::empty(),
    {
        let r = NumberTable { entries: Vec::new() };
        assert(r@ =~= Seq::<TableEntry>::empty());
        r
    }

    /// The number of entries.
    pub fn len(&self) -> (r: usize)
        ensures
            r == self@.len(),
    {
        self.entries.len()
    }

    /// Adds an entry after those already there. An earlier entry for the
    /// same token keeps precedence.
    pub fn insert(&mut self, token: &str, number: Number)
        ensures
            final(self)@ == old(self)@.push((token@, number@)),
    {
        self.entries.push((token.to_owned(), number));
        assert(self@ =~= old(self)@.push((token@, number@)));
    }

    /// The number that `token` denotes, if the table has one.
    pub fn lookup(&self, token: &str) -> (r: Option<&Number>)
        ensures
            match self.get(token@) {
                Some(n) => r is Some && r->0@ == n,
                None => r is None,
            },
    {
        let wanted = token.to_owned();
        let mut i: usize = 0;
        while i < self.entries.len()
            invariant
                i <= self.entries.len(),
                wanted@ == token@,
                table_lookup(self@, token@, 0) == table_lookup(self@, token@, i as int),
            decreases self.entries.len() - i,
        {
            if self.entries[i].0 == wanted {
                return Some(&self.entries[i].1);
            }
            i += 1;
        }
        None
    }
}

} // verus!
