//! The textual form of plain values, as their `Display` implementations in
//! std write them.

use vstd::prelude::*;

use crate::escape::{entity, escape, lemma_escape_plain};
use crate::strings::{push_char, push_str};

verus! {

/// A value with a textual form.
pub trait Text {
    /// The characters that make up the textual form.
    spec fn text(&self) -> Seq<char>;

    /// Appends the textual form to `out`.
    fn write_text(&self, out: &mut String)
        ensures
            final(out)@ == old(out)@ + self.text(),
    ;
}

/// The character of a decimal digit.
pub open spec fn digit_char(d: nat) -> char {
    (('0' as nat) + d) as char
}

/// The decimal numeral of a natural number, without leading zeros.
pub open spec fn decimal(n: nat) -> Seq<char>
    decreases n,
{
    if n < 10 {
        seq![digit_char(n)]
    } else {
        decimal(n / 10).push(digit_char(n % 10))
    }
}

/// The decimal numeral of an integer, with a leading `-` when negative.
pub open spec fn signed_decimal(n: int) -> Seq<char> {
    if n < 0 {
        seq!['-'] + decimal((-n) as nat)
    } else {
        decimal(n as nat)
    }
}

fn digit(d: u128) -> (c: char)
    requires
        d < 10,
    ensures
        c == digit_char(d as nat),
{
    let b: u8 = 48u8 + (d as u8);
    b as char
}

/// Appends the decimal numeral of `n`.
pub fn write_decimal(out: &mut String, n: u128)
    ensures
        final(out)@ == old(out)@ + decimal(n as nat),
    decreases n,
{
    if n >= 10 {
        write_decimal(out, n / 10);
    }
    push_char(out, digit(n % 10));
}

/// Appends the decimal numeral of `n`, with a leading `-` when negative.
pub fn write_signed_decimal(out: &mut String, n: i128)
    ensures
        final(out)@ == old(out)@ + signed_decimal(n as int),
{
    if n < 0 {
        push_char(out, '-');
        let m: u128 = ((-(n + 1)) as u128) + 1;
        write_decimal(out, m);
        assert(final(out)@ == old(out)@ + signed_decimal(n as int));
    } else {
        write_decimal(out, n as u128);
    }
}

impl Text for str {
    open spec fn text(&self) -> Seq<char> {
        self@
    }

    fn write_text(&self, out: &mut String) {
        push_str(out, self);
    }
}

impl Text for String {
    open spec fn text(&self) -> Seq<char> {
        self@
    }

    fn write_text(&self, out: &mut String) {
        push_str(out, self.as_str());
    }
}

impl Text for char {
    open spec fn text(&self) -> Seq<char> {
        seq![*self]
    }

    fn write_text(&self, out: &mut String) {
        push_char(out, *self);
    }
}

impl Text for bool {
    open spec fn text(&self) -> Seq<char> {
        if *self {
            seq!['t', 'r', 'u', 'e']
        } else {
            seq!['f', 'a', 'l', 's', 'e']
        }
    }

    fn write_text(&self, out: &mut String) {
        if *self {
            proof { reveal_strlit("true"); }
            push_str(out, "true");
        } else {
            proof { reveal_strlit("false"); }
            push_str(out, "false");
        }
    }
}

impl<'a, T: Text + ?Sized> Text for &'a T {
    open spec fn text(&self) -> Seq<char> {
        (**self).text()
    }

    fn write_text(&self, out: &mut String) {
        (**self).write_text(out);
    }
}

impl Text for u8 {
    open spec fn text(&self) -> Seq<char> {
        decimal(*self as nat)
    }

    fn write_text(&self, out: &mut String) {
        write_decimal(out, *self as u128);
    }
}

impl Text for i32 {
    open spec fn text(&self) -> Seq<char> {
        signed_decimal(*self as int)
    }

    fn write_text(&self, out: &mut String) {
        write_signed_decimal(out, *self as i128);
    }
}


impl Text for u16 {
    open spec fn text(&self) -> Seq<char> {
        decimal(*self as nat)
    }

    fn write_text(&self, out: &mut String) {
        write_decimal(out, *self as u128);
    }
}

impl Text for u32 {
    open spec fn text(&self) -> Seq<char> {
        decimal(*self as nat)
    }

    fn write_text(&self, out: &mut String) {
        write_decimal(out, *self as u128);
    }
}

impl Text for u64 {
    open spec fn text(&self) -> Seq<char> {
        decimal(*self as nat)
    }

    fn write_text(&self, out: &mut String) {
        write_decimal(out, *self as u128);
    }
}

impl Text for usize {
    open spec fn text(&self) -> Seq<char> {
        decimal(*self as nat)
    }

    fn write_text(&self, out: &mut String) {
        write_decimal(out, *self as u128);
    }
}

impl Text for i8 {
    open spec fn text(&self) -> Seq<char> {
        signed_decimal(*self as int)
    }

    fn write_text(&self, out: &mut String) {
        write_signed_decimal(out, *self as i128);
    }
}

impl Text for i16 {
    open spec fn text(&self) -> Seq<char> {
        signed_decimal(*self as int)
    }

    fn write_text(&self, out: &mut String) {
        write_signed_decimal(out, *self as i128);
    }
}

impl Text for i64 {
    open spec fn text(&self) -> Seq<char> {
        signed_decimal(*self as int)
    }

    fn write_text(&self, out: &mut String) {
        write_signed_decimal(out, *self as i128);
    }
}

impl Text for isize {
    open spec fn text(&self) -> Seq<char> {
        signed_decimal(*self as int)
    }

    fn write_text(&self, out: &mut String) {
        write_signed_decimal(out, *self as i128);
    }
}


proof fn lemma_decimal_chars(n: nat)
    ensures
        decimal(n).len() >= 1,
        forall|i: int|
            0 <= i < decimal(n).len() ==> '0' <= #[trigger] decimal(n)[i] && decimal(n)[i] <= '9',
    decreases n,
{
    if n >= 10 {
        lemma_decimal_chars(n / 10);
        let d = decimal(n / 10);
        assert forall|i: int| 0 <= i < decimal(n).len() implies '0' <= #[trigger] decimal(n)[i]
            && decimal(n)[i] <= '9' by {
            if i < d.len() {
                assert(decimal(n)[i] == d[i]);
            }
        }
    }
}

/// Numbers need no escaping: their numerals hold only digits and `-`, so a
/// number renders as its numeral.
pub proof fn lemma_numeral_needs_no_escaping(n: int)
    ensures
        escape(signed_decimal(n)) == signed_decimal(n),
{
    let m: nat = if n < 0 { (-n) as nat } else { n as nat };
    lemma_decimal_chars(m);
    let s = signed_decimal(n);
    assert forall|i: int| 0 <= i < s.len() implies entity(#[trigger] s[i]) is None by {
        if n < 0 {
            if i > 0 {
                assert(s[i] == decimal(m)[i - 1]);
            }
        } else {
            assert(s[i] == decimal(m)[i]);
        }
    }
    lemma_escape_plain(s);
}


impl Text for u128 {
    open spec fn text(&self) -> Seq<char> {
        decimal(*self as nat)
    }

    fn write_text(&self, out: &mut String) {
        write_decimal(out, *self);
    }
}

impl Text for i128 {
    open spec fn text(&self) -> Seq<char> {
        signed_decimal(*self as int)
    }

    fn write_text(&self, out: &mut String) {
        write_signed_decimal(out, *self);
    }
}


/// The value of a decimal digit character.
pub open spec fn digit_value(c: char) -> int {
    (c as int) - ('0' as int)
}

/// The number that a sequence of decimal digits denotes, read left to right.
pub open spec fn numeral_value(s: Seq<char>) -> int
    decreases s.len(),
{
    if s.len() == 0 {
        0
    } else {
        numeral_value(s.drop_last()) * 10 + digit_value(s.last())
    }
}

/// A decimal numeral: digits only, at least one, and no leading zero.
pub open spec fn is_numeral(s: Seq<char>) -> bool {
    &&& s.len() >= 1
    &&& forall|i: int| 0 <= i < s.len() ==> '0' <= #[trigger] s[i] <= '9'
    &&& (s.len() > 1 ==> s[0] != '0')
}

/// A decimal numeral, with a leading `-` when negative; zero has no sign.
pub open spec fn is_signed_numeral(s: Seq<char>) -> bool {
    if s.len() > 0 && s[0] == '-' {
        is_numeral(s.skip(1)) && s.skip(1) != seq!['0']
    } else {
        is_numeral(s)
    }
}

/// The number that a numeral with an optional leading `-` denotes.
pub open spec fn signed_numeral_value(s: Seq<char>) -> int {
    if s.len() > 0 && s[0] == '-' {
        -numeral_value(s.skip(1))
    } else {
        numeral_value(s)
    }
}

proof fn lemma_digit(d: nat)
    requires
        d < 10,
    ensures
        digit_value(digit_char(d)) == d,
        '0' <= digit_char(d) <= '9',
        (digit_char(d) == '0') == (d == 0),
{
}

/// The numeral of a number is a decimal numeral without leading zeros, and
/// read back it gives the number.
pub proof fn lemma_decimal_reads_back(n: nat)
    ensures
        is_numeral(decimal(n)),
        numeral_value(decimal(n)) == n,
        decimal(n) == seq!['0'] <==> n == 0,
    decreases n,
{
    if n < 10 {
        lemma_digit(n);
        assert(decimal(n).drop_last() =~= Seq::<char>::empty());
        assert(numeral_value(Seq::<char>::empty()) == 0);
        assert(decimal(n).last() == digit_char(n));
        assert(numeral_value(decimal(n)) == 0 * 10 + digit_value(digit_char(n)));
    } else {
        lemma_decimal_reads_back(n / 10);
        lemma_digit(n % 10);
        let d = decimal(n / 10);
        assert(decimal(n).drop_last() =~= d);
        assert(numeral_value(decimal(n)) == (n / 10) as int * 10 + (n % 10) as int);
        assert((n / 10) as int * 10 + (n % 10) as int == n) by (nonlinear_arith);
        assert forall|i: int| 0 <= i < decimal(n).len() implies '0' <= #[trigger] decimal(n)[i]
            <= '9' by {
            if i < d.len() {
                assert(decimal(n)[i] == d[i]);
            }
        }
        assert(decimal(n)[0] == d[0]);
        if d.len() == 1 {
            assert(d[0] != '0') by {
                if d[0] == '0' {
                    assert(d =~= seq!['0']);
                }
            }
        }
        assert(decimal(n).len() > 1);
    }
}

/// The numeral of an integer is a signed decimal numeral, and read back it
/// gives the integer.
pub proof fn lemma_signed_decimal_reads_back(n: int)
    ensures
        is_signed_numeral(signed_decimal(n)),
        signed_numeral_value(signed_decimal(n)) == n,
{
    if n < 0 {
        let m = (-n) as nat;
        lemma_decimal_reads_back(m);
        let s = signed_decimal(n);
        assert(s.skip(1) =~= decimal(m));
    } else {
        lemma_decimal_reads_back(n as nat);
        lemma_decimal_chars(n as nat);
        let s = decimal(n as nat);
        assert(s[0] != '-');
    }
}

/// A `u8` is written as the decimal numeral of its own value.
pub proof fn lemma_u8_text(v: u8)
    ensures
        is_numeral(v.text()),
        numeral_value(v.text()) == v as int,
{
    lemma_decimal_reads_back(v as nat);
}

/// A `u16` is written as the decimal numeral of its own value.
pub proof fn lemma_u16_text(v: u16)
    ensures
        is_numeral(v.text()),
        numeral_value(v.text()) == v as int,
{
    lemma_decimal_reads_back(v as nat);
}

/// A `u32` is written as the decimal numeral of its own value.
pub proof fn lemma_u32_text(v: u32)
    ensures
        is_numeral(v.text()),
        numeral_value(v.text()) == v as int,
{
    lemma_decimal_reads_back(v as nat);
}

/// A `u64` is written as the decimal numeral of its own value.
pub proof fn lemma_u64_text(v: u64)
    ensures
        is_numeral(v.text()),
        numeral_value(v.text()) == v as int,
{
    lemma_decimal_reads_back(v as nat);
}

/// A `u128` is written as the decimal numeral of its own value.
pub proof fn lemma_u128_text(v: u128)
    ensures
        is_numeral(v.text()),
        numeral_value(v.text()) == v as int,
{
    lemma_decimal_reads_back(v as nat);
}

/// A `usize` is written as the decimal numeral of its own value.
pub proof fn lemma_usize_text(v: usize)
    ensures
        is_numeral(v.text()),
        numeral_value(v.text()) == v as int,
{
    lemma_decimal_reads_back(v as nat);
}

/// An `i8` is written as the decimal numeral of its own value, with a `-`
/// when negative.
pub proof fn lemma_i8_text(v: i8)
    ensures
        is_signed_numeral(v.text()),
        signed_numeral_value(v.text()) == v as int,
{
    lemma_signed_decimal_reads_back(v as int);
}

/// An `i16` is written as the decimal numeral of its own value, with a `-`
/// when negative.
pub proof fn lemma_i16_text(v: i16)
    ensures
        is_signed_numeral(v.text()),
        signed_numeral_value(v.text()) == v as int,
{
    lemma_signed_decimal_reads_back(v as int);
}

/// An `i32` is written as the decimal numeral of its own value, with a `-`
/// when negative.
pub proof fn lemma_i32_text(v: i32)
    ensures
        is_signed_numeral(v.text()),
        signed_numeral_value(v.text()) == v as int,
{
    lemma_signed_decimal_reads_back(v as int);
}

/// An `i64` is written as the decimal numeral of its own value, with a `-`
/// when negative.
pub proof fn lemma_i64_text(v: i64)
    ensures
        is_signed_numeral(v.text()),
        signed_numeral_value(v.text()) == v as int,
{
    lemma_signed_decimal_reads_back(v as int);
}

/// An `i128` is written as the decimal numeral of its own value, with a `-`
/// when negative.
pub proof fn lemma_i128_text(v: i128)
    ensures
        is_signed_numeral(v.text()),
        signed_numeral_value(v.text()) == v as int,
{
    lemma_signed_decimal_reads_back(v as int);
}

/// An `isize` is written as the decimal numeral of its own value, with a `-`
/// when negative.
pub proof fn lemma_isize_text(v: isize)
    ensures
        is_signed_numeral(v.text()),
        signed_numeral_value(v.text()) == v as int,
{
    lemma_signed_decimal_reads_back(v as int);
}

/// A `bool` is written as `true` or `false`.
pub proof fn lemma_bool_text(b: bool)
    ensures
        b.text() == if b {
            seq!['t', 'r', 'u', 'e']
        } else {
            seq!['f', 'a', 'l', 's', 'e']
        },
{
}

/// A `char` is written as itself.
pub proof fn lemma_char_text(c: char)
    ensures
        c.text().len() == 1,
        c.text()[0] == c,
{
}

/// A string is written as itself.
pub proof fn lemma_string_text(s: String)
    ensures
        s.text() == s@,
{
}

/// A string slice is written as itself.
pub proof fn lemma_str_text(s: &str)
    ensures
        s.text() == s@,
{
}

} // verus!
