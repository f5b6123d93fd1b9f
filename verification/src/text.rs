//! Character-level facts shared by the lexer and the generators: UTF-8 widths,
//! line and column bookkeeping, whitespace classes, and small string builders.

use vstd::prelude::*;

use crate::outside::push_char;

verus! {

/// Number of bytes that `c` takes in UTF-8.
pub open spec fn utf8_width(c: char) -> nat {
    if (c as u32) < 0x80 {
        1
    } else if (c as u32) < 0x800 {
        2
    } else if (c as u32) < 0x10000 {
        3
    } else {
        4
    }
}

/// Number of bytes of the UTF-8 encoding of `s`.
pub open spec fn byte_len(s: Seq<char>) -> nat
    decreases s.len(),
{
    if s.len() == 0 {
        0
    } else {
        byte_len(s.drop_last()) + utf8_width(s.last())
    }
}

/// Number of `'\n'` in `s`.
pub open spec fn newline_count(s: Seq<char>) -> nat
    decreases s.len(),
{
    if s.len() == 0 {
        0
    } else {
        newline_count(s.drop_last()) + if s.last() == '\n' { 1nat } else { 0nat }
    }
}

/// Bytes that follow the last `'\n'` of `s` (all of `s` when it has none).
pub open spec fn column_of(s: Seq<char>) -> nat
    decreases s.len(),
{
    if s.len() == 0 {
        0
    } else if s.last() == '\n' {
        0
    } else {
        column_of(s.drop_last()) + utf8_width(s.last())
    }
}

pub proof fn lemma_counts_bounded(s: Seq<char>)
    ensures
        newline_count(s) <= byte_len(s),
        column_of(s) <= byte_len(s),
    decreases s.len(),
{
    if s.len() > 0 {
        lemma_counts_bounded(s.drop_last());
    }
}

pub proof fn lemma_byte_len_prefix(s: Seq<char>, i: int)
    requires
        0 <= i <= s.len(),
    ensures
        byte_len(s.take(i)) <= byte_len(s),
        i < s.len() ==> byte_len(s.take(i)) < byte_len(s),
    decreases s.len() - i,
{
    if i < s.len() {
        lemma_byte_len_prefix(s, i + 1);
        assert(s.take(i + 1).drop_last() =~= s.take(i));
    } else {
        assert(s.take(i) =~= s);
    }
}

/// Step of the prefix bookkeeping: appending one character.
pub proof fn lemma_take_step(s: Seq<char>, i: int)
    requires
        0 <= i < s.len(),
    ensures
        byte_len(s.take(i + 1)) == byte_len(s.take(i)) + utf8_width(s[i]),
        newline_count(s.take(i + 1)) == newline_count(s.take(i)) + if s[i] == '\n' { 1nat } else { 0nat },
        column_of(s.take(i + 1)) == if s[i] == '\n' { 0 } else { column_of(s.take(i)) + utf8_width(s[i]) },
{
    assert(s.take(i + 1).drop_last() =~= s.take(i));
}

/// UTF-8 width of one character.
pub fn char_width(c: char) -> (w: u32)
    ensures
        w == utf8_width(c),
{
    let u = c as u32;
    if u < 0x80 {
        1
    } else if u < 0x800 {
        2
    } else if u < 0x10000 {
        3
    } else {
        4
    }
}

/// Unicode `White_Space`, which is what `char::is_whitespace` tests.
pub open spec fn is_white_space(c: char) -> bool {
    let u = c as u32;
    ||| 0x09 <= u <= 0x0d
    ||| u == 0x20
    ||| u == 0x85
    ||| u == 0xa0
    ||| u == 0x1680
    ||| 0x2000 <= u <= 0x200a
    ||| u == 0x2028
    ||| u == 0x2029
    ||| u == 0x202f
    ||| u == 0x205f
    ||| u == 0x3000
}

/// Whether `c` is whitespace in the Unicode `White_Space` sense.
pub fn white_space(c: char) -> (b: bool)
    ensures
        b == is_white_space(c),
{
    let u = c as u32;
    (0x09 <= u && u <= 0x0d) || u == 0x20 || u == 0x85 || u == 0xa0 || u == 0x1680 || (0x2000 <= u
        && u <= 0x200a) || u == 0x2028 || u == 0x2029 || u == 0x202f || u == 0x205f || u == 0x3000
}


/// The decimal digit for `d` (below 10).
pub open spec fn digit_char(d: nat) -> char {
    if d == 0 {
        '0'
    } else if d == 1 {
        '1'
    } else if d == 2 {
        '2'
    } else if d == 3 {
        '3'
    } else if d == 4 {
        '4'
    } else if d == 5 {
        '5'
    } else if d == 6 {
        '6'
    } else if d == 7 {
        '7'
    } else if d == 8 {
        '8'
    } else {
        '9'
    }
}

/// `n` in decimal, without leading zeros.
pub open spec fn decimal(n: nat) -> Seq<char>
    decreases n,
{
    if n < 10 {
        seq![digit_char(n)]
    } else {
        decimal(n / 10).push(digit_char(n % 10))
    }
}

pub proof fn lemma_decimal_digits(n: nat)
    ensures
        decimal(n).len() >= 1,
        forall|i: int| 0 <= i < decimal(n).len() ==> '0' <= #[trigger] decimal(n)[i] <= '9',
    decreases n,
{
    if n >= 10 {
        lemma_decimal_digits(n / 10);
    }
}

fn digit(d: u64) -> (c: char)
    requires
        d < 10,
    ensures
        c == digit_char(d as nat),
{
    if d == 0 {
        '0'
    } else if d == 1 {
        '1'
    } else if d == 2 {
        '2'
    } else if d == 3 {
        '3'
    } else if d == 4 {
        '4'
    } else if d == 5 {
        '5'
    } else if d == 6 {
        '6'
    } else if d == 7 {
        '7'
    } else if d == 8 {
        '8'
    } else {
        '9'
    }
}

/// Append `n` in decimal to `s`.
pub fn push_decimal(s: &mut String, n: u64)
    ensures
        final(s)@ == old(s)@ + decimal(n as nat),
{
    let mut digits: Vec<char> = Vec::new();
    let mut v = n;
    while v >= 10
        invariant
            decimal(n as nat) == decimal(v as nat) + digits@,
        decreases v,
    {
        digits.insert(0, digit(v % 10));
        assert(decimal(v as nat) == decimal((v / 10) as nat).push(digit_char((v % 10) as nat)));
        assert(decimal(n as nat) =~= decimal((v / 10) as nat) + digits@);
        v = v / 10;
    }
    digits.insert(0, digit(v));
    assert(decimal(n as nat) =~= digits@);
    let ghost start = s@;
    let mut i: usize = 0;
    while i < digits.len()
        invariant
            i <= digits@.len(),
            s@ == start + digits@.take(i as int),
        decreases digits.len() - i,
    {
        push_char(s, digits[i]);
        assert(digits@.take(i + 1) =~= digits@.take(i as int).push(digits@[i as int]));
        i = i + 1;
    }
    assert(digits@.take(i as int) =~= digits@);
}

/// The characters of `s`.
pub fn str_chars(s: &str) -> (v: Vec<char>)
    ensures
        v@ == s@,
{
    let mut v: Vec<char> = Vec::new();
    for c in it: s.chars()
        invariant
            v@ == it.seq().take(it.index() as int),
    {
        v.push(c);
    }
    v
}

/// `s` without its `char::is_whitespace` characters.
pub open spec fn strip_white_space(s: Seq<char>) -> Seq<char>
    decreases s.len(),
{
    if s.len() == 0 {
        s
    } else if is_white_space(s.last()) {
        strip_white_space(s.drop_last())
    } else {
        strip_white_space(s.drop_last()).push(s.last())
    }
}

/// Append the characters of `text` that are not whitespace to `out`.
pub fn push_stripped(out: &mut String, text: &[char])
    ensures
        final(out)@ == old(out)@ + strip_white_space(text@),
{
    let ghost start = out@;
    let mut i: usize = 0;
    assert(text@.take(0) =~= Seq::<char>::empty());
    while i < text.len()
        invariant
            i <= text@.len(),
            out@ =~= start + strip_white_space(text@.take(i as int)),
        decreases text.len() - i,
    {
        let c = text[i];
        assert(text@.take(i + 1).drop_last() =~= text@.take(i as int));
        if !white_space(c) {
            push_char(out, c);
        }
        i = i + 1;
    }
    assert(text@.take(i as int) =~= text@);
}

} // verus!
