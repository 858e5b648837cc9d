//! The two numbers of a request: the protocol version, which has to read
//! as a decimal floating-point literal, and the length of the body.

use vstd::prelude::*;
use vstd::slice::*;

verus! {

/// A decimal digit.
pub open spec fn digit(c: char) -> bool {
    '0' <= c <= '9'
}

/// A plus or minus sign.
pub open spec fn sign(c: char) -> bool {
    c == '+' || c == '-'
}

/// `c` is the lower-case letter `l` or its upper-case form.
pub open spec fn letter(c: char, l: char) -> bool {
    c == l || (c as u32) + 32 == (l as u32)
}

/// How many digits `s` starts with.
pub open spec fn digit_run(s: Seq<char>) -> nat
    decreases s.len(),
{
    if s.len() > 0 && digit(s[0]) {
        1 + digit_run(s.drop_first())
    } else {
        0
    }
}

/// `s` without the sign that it may start with.
pub open spec fn unsigned(s: Seq<char>) -> Seq<char> {
    if s.len() > 0 && sign(s[0]) {
        s.skip(1)
    } else {
        s
    }
}

/// One of the words `inf`, `infinity` and `nan`, in any mix of cases.
pub open spec fn special(s: Seq<char>) -> bool {
    ||| s.len() == 3 && letter(s[0], 'i') && letter(s[1], 'n') && letter(s[2], 'f')
    ||| s.len() == 3 && letter(s[0], 'n') && letter(s[1], 'a') && letter(s[2], 'n')
    ||| s.len() == 8 && letter(s[0], 'i') && letter(s[1], 'n') && letter(s[2], 'f') && letter(
        s[3],
        'i',
    ) && letter(s[4], 'n') && letter(s[5], 'i') && letter(s[6], 't') && letter(s[7], 'y')
}

/// An exponent: `e` or `E`, an optional sign, and at least one digit with
/// nothing after the digits.
pub open spec fn exponent(s: Seq<char>) -> bool {
    &&& s.len() > 0
    &&& letter(s[0], 'e')
    &&& unsigned(s.skip(1)).len() > 0
    &&& digit_run(unsigned(s.skip(1))) == unsigned(s.skip(1)).len()
}

/// Digits with an optional point among, before or after them, at least one
/// digit in all, and an optional exponent.
pub open spec fn number(s: Seq<char>) -> bool {
    let whole = digit_run(s);
    let rest = s.skip(whole as int);
    let pointed = rest.len() > 0 && rest[0] == '.';
    let fraction = if pointed {
        digit_run(rest.skip(1))
    } else {
        0
    };
    let tail = if pointed {
        rest.skip(1 + fraction as int)
    } else {
        rest
    };
    whole + fraction > 0 && (tail.len() == 0 || exponent(tail))
}

/// The texts that read as a decimal floating-point literal: an optional
/// sign, then a number or one of the special words.
pub open spec fn float_literal(s: Seq<char>) -> bool {
    special(unsigned(s)) || number(unsigned(s))
}

/// The value of a decimal digit.
pub open spec fn digit_value(c: char) -> nat {
    ((c as u32) - ('0' as u32)) as nat
}

/// The number that the digits `d` write in base ten.
pub open spec fn decimal_value(d: Seq<char>) -> nat
    decreases d.len(),
{
    if d.len() == 0 {
        0
    } else {
        10 * decimal_value(d.drop_last()) + digit_value(d.last())
    }
}

/// The digits of a length: `s` without the plus sign that it may start
/// with.
pub open spec fn length_digits(s: Seq<char>) -> Seq<char> {
    if s.len() > 0 && s[0] == '+' {
        s.skip(1)
    } else {
        s
    }
}

/// The length that `s` writes: an optional plus sign and at least one
/// digit, with a value that fits the machine's word. `None` for any other
/// text.
pub open spec fn length_value(s: Seq<char>) -> Option<nat> {
    let d = length_digits(s);
    if d.len() > 0 && digit_run(d) == d.len() && decimal_value(d) <= usize::MAX {
        Some(decimal_value(d))
    } else {
        None
    }
}

/// `digit_run` counts exactly the digits before the first other character.
pub proof fn lemma_digit_run_is(s: Seq<char>, n: int)
    requires
        0 <= n <= s.len(),
        forall|j: int| 0 <= j < n ==> digit(s[j]),
        n < s.len() ==> !digit(s[n]),
    ensures
        digit_run(s) == n,
    decreases s.len(),
{
    if n > 0 {
        let t = s.drop_first();
        assert forall|j: int| 0 <= j < n - 1 implies digit(t[j]) by {
            assert(t[j] == s[j + 1]);
        }
        lemma_digit_run_is(t, n - 1);
    }
}

/// What `digit_run` counts are digits, and what follows is none.
pub proof fn lemma_digit_run_bounds(s: Seq<char>)
    ensures
        digit_run(s) <= s.len(),
        forall|j: int| 0 <= j < digit_run(s) ==> digit(s[j]),
        digit_run(s) < s.len() ==> !digit(s[digit_run(s) as int]),
    decreases s.len(),
{
    if s.len() > 0 && digit(s[0]) {
        let t = s.drop_first();
        lemma_digit_run_bounds(t);
        assert forall|j: int| 0 <= j < digit_run(s) implies digit(s[j]) by {
            if j > 0 {
                assert(s[j] == t[j - 1]);
            }
        }
        if digit_run(s) < s.len() {
            assert(s[digit_run(s) as int] == t[digit_run(t) as int]);
        }
    }
}

/// The characters that floating-point literals are written with: digits,
/// signs, the point and letters.
pub open spec fn literal_char(c: char) -> bool {
    digit(c) || sign(c) || c == '.' || 'a' <= c <= 'z' || 'A' <= c <= 'Z'
}

/// All characters of `s` are such as floating-point literals are written
/// with.
pub open spec fn literal_chars(s: Seq<char>) -> bool {
    forall|i: int| 0 <= i < s.len() ==> literal_char(s[i])
}

/// A text that continues literal characters with literal characters is
/// made of them.
proof fn lemma_literal_chars_from(s: Seq<char>, k: int)
    requires
        0 <= k <= s.len(),
        forall|i: int| 0 <= i < k ==> literal_char(s[i]),
        literal_chars(s.skip(k)),
    ensures
        literal_chars(s),
{
    assert forall|i: int| 0 <= i < s.len() implies literal_char(s[i]) by {
        if i >= k {
            assert(s[i] == s.skip(k)[i - k]);
        }
    }
}

/// A run of digits that fills a text makes it a text of literal
/// characters.
proof fn lemma_digits_are_literal(s: Seq<char>)
    requires
        digit_run(s) == s.len(),
    ensures
        literal_chars(s),
{
    lemma_digit_run_bounds(s);
}

/// An exponent is written with literal characters.
proof fn lemma_exponent_chars(s: Seq<char>)
    requires
        exponent(s),
    ensures
        literal_chars(s),
{
    let after = s.skip(1);
    let digits = unsigned(after);
    lemma_digits_are_literal(digits);
    if after.len() > 0 && sign(after[0]) {
        lemma_literal_chars_from(after, 1);
    }
    lemma_letter_is_literal(s[0], 'e');
    lemma_literal_chars_from(s, 1);
}

/// A number is written with literal characters, and with one at least.
proof fn lemma_number_chars(s: Seq<char>)
    requires
        number(s),
    ensures
        s.len() > 0,
        literal_chars(s),
{
    lemma_digit_run_bounds(s);
    let whole = digit_run(s) as int;
    let rest = s.skip(whole);
    if rest.len() > 0 && rest[0] == '.' {
        let after = rest.skip(1);
        lemma_digit_run_bounds(after);
        let fraction = digit_run(after) as int;
        let tail = after.skip(fraction);
        assert(tail =~= rest.skip(1 + fraction));
        if tail.len() > 0 {
            lemma_exponent_chars(tail);
        }
        lemma_literal_chars_from(after, fraction);
        lemma_literal_chars_from(rest, 1);
    } else {
        if rest.len() > 0 {
            lemma_exponent_chars(rest);
        }
    }
    lemma_literal_chars_from(s, whole);
}

/// A floating-point literal is written with literal characters, and with
/// one at least.
pub proof fn lemma_float_literal_chars(s: Seq<char>)
    requires
        float_literal(s),
    ensures
        s.len() > 0,
        literal_chars(s),
{
    let u = unsigned(s);
    if number(u) {
        lemma_number_chars(u);
    } else {
        assert(special(u));
        assert forall|i: int| 0 <= i < u.len() implies literal_char(u[i]) by {
            lemma_letter_is_literal(u[i], 'i');
            lemma_letter_is_literal(u[i], 'n');
            lemma_letter_is_literal(u[i], 'f');
            lemma_letter_is_literal(u[i], 'a');
            lemma_letter_is_literal(u[i], 't');
            lemma_letter_is_literal(u[i], 'y');
        }
    }
    if s.len() > 0 && sign(s[0]) {
        lemma_literal_chars_from(s, 1);
    }
}

/// A lower-case letter and its upper-case form are literal characters.
proof fn lemma_letter_is_literal(c: char, l: char)
    requires
        'a' <= l <= 'z',
    ensures
        letter(c, l) ==> literal_char(c),
{
    if letter(c, l) && c != l {
        let u = c as u32;
        assert(u + 32 == l as u32);
        assert(65 <= u <= 90);
        assert('A' <= c <= 'Z');
    }
}

/// A longer run of digits writes no smaller number.
pub proof fn lemma_decimal_value_grows(d: Seq<char>, k: int)
    requires
        0 <= k <= d.len(),
    ensures
        decimal_value(d.take(k)) <= decimal_value(d),
    decreases d.len() - k,
{
    if k == d.len() {
        assert(d.take(k) =~= d);
    } else {
        lemma_decimal_value_grows(d, k + 1);
        assert(d.take(k + 1).drop_last() =~= d.take(k));
    }
}

/// Tells whether `c` is a decimal digit.
pub fn is_digit(c: char) -> (b: bool)
    ensures
        b == digit(c),
{
    '0' <= c && c <= '9'
}

/// Tells whether `c` is the lower-case letter `l` or its upper-case form.
pub fn is_letter(c: char, l: char) -> (b: bool)
    ensures
        b == letter(c, l),
{
    c == l || (c as u32) + 32 == (l as u32)
}

/// How many digits `s` holds from `from` on before the first other
/// character.
fn count_digits(s: &[char], from: usize) -> (n: usize)
    requires
        from <= s.len(),
    ensures
        n == digit_run(s@.skip(from as int)),
        from + n <= s.len(),
{
    let mut i: usize = from;
    while i < s.len() && is_digit(s[i])
        invariant
            from <= i <= s.len(),
            forall|j: int| from <= j < i ==> digit(s@[j]),
        decreases s.len() - i,
    {
        i += 1;
    }
    proof {
        lemma_digit_run_is(s@.skip(from as int), i - from);
    }
    i - from
}

/// The position after the sign that `s` may hold at `from`.
fn skip_sign(s: &[char], from: usize) -> (i: usize)
    requires
        from <= s.len(),
    ensures
        from <= i <= s.len(),
        s@.skip(i as int) == unsigned(s@.skip(from as int)),
{
    if from < s.len() && (s[from] == '+' || s[from] == '-') {
        assert(s@.skip(from as int).skip(1) =~= s@.skip(from + 1));
        from + 1
    } else {
        from
    }
}

/// Tells whether `s` from `from` on is one of the special words.
fn is_special(s: &[char], from: usize) -> (b: bool)
    requires
        from <= s.len(),
    ensures
        b == special(s@.skip(from as int)),
{
    let n = s.len() - from;
    if n == 3 {
        (is_letter(s[from], 'i') && is_letter(s[from + 1], 'n') && is_letter(s[from + 2], 'f'))
            || (is_letter(s[from], 'n') && is_letter(s[from + 1], 'a') && is_letter(
            s[from + 2],
            'n',
        ))
    } else if n == 8 {
        is_letter(s[from], 'i') && is_letter(s[from + 1], 'n') && is_letter(s[from + 2], 'f')
            && is_letter(s[from + 3], 'i') && is_letter(s[from + 4], 'n') && is_letter(
            s[from + 5],
            'i',
        ) && is_letter(s[from + 6], 't') && is_letter(s[from + 7], 'y')
    } else {
        false
    }
}

/// Tells whether `s` from `from` on is an exponent.
fn is_exponent(s: &[char], from: usize) -> (b: bool)
    requires
        from <= s.len(),
    ensures
        b == exponent(s@.skip(from as int)),
{
    if from < s.len() && is_letter(s[from], 'e') {
        assert(s@.skip(from as int).skip(1) =~= s@.skip(from + 1));
        let digits = skip_sign(s, from + 1);
        digits < s.len() && count_digits(s, digits) == s.len() - digits
    } else {
        false
    }
}

/// Tells whether `s` from `from` on is a number.
fn is_number(s: &[char], from: usize) -> (b: bool)
    requires
        from <= s.len(),
    ensures
        b == number(s@.skip(from as int)),
{
    let whole = count_digits(s, from);
    let point = from + whole;
    assert(s@.skip(from as int).skip(whole as int) =~= s@.skip(point as int));
    if point < s.len() && s[point] == '.' {
        assert(s@.skip(point as int).skip(1) =~= s@.skip(point + 1));
        let fraction = count_digits(s, point + 1);
        let tail = point + 1 + fraction;
        assert(s@.skip(point as int).skip(1 + fraction) =~= s@.skip(tail as int));
        whole + fraction > 0 && (tail == s.len() || is_exponent(s, tail))
    } else {
        whole > 0 && (point == s.len() || is_exponent(s, point))
    }
}

/// Tells whether `s` reads as a decimal floating-point literal.
pub fn is_float_literal(s: &[char]) -> (b: bool)
    ensures
        b == float_literal(s@),
{
    assert(s@.skip(0) =~= s@);
    let start = skip_sign(s, 0);
    is_special(s, start) || is_number(s, start)
}

/// The length that `s` writes, if it writes one.
pub fn parse_length(s: &[char]) -> (r: Option<usize>)
    ensures
        match r {
            Some(n) => length_value(s@) == Some(n as nat),
            None => length_value(s@) is None,
        },
{
    let start: usize = if s.len() > 0 && s[0] == '+' {
        1
    } else {
        0
    };
    let ghost d = length_digits(s@);
    assert(d =~= s@.skip(start as int));
    if start == s.len() {
        return None;
    }
    let mut value: usize = 0;
    let mut i: usize = start;
    while i < s.len()
        invariant
            start <= i <= s.len(),
            d == s@.skip(start as int),
            d == length_digits(s@),
            forall|j: int| start <= j < i ==> digit(s@[j]),
            value == decimal_value(d.take(i - start)),
        decreases s.len() - i,
    {
        let c = s[i];
        if !is_digit(c) {
            proof {
                lemma_digit_run_is(d, i - start);
            }
            return None;
        }
        let v: usize = ((c as u32) - ('0' as u32)) as usize;
        proof {
            let longer = d.take(i + 1 - start);
            assert(longer.drop_last() =~= d.take(i - start));
            assert(longer.last() == c);
            assert(decimal_value(longer) == 10 * value + v);
            lemma_decimal_value_grows(d, i + 1 - start);
        }
        let next = match value.checked_mul(10) {
            Some(tens) => tens.checked_add(v),
            None => None,
        };
        match next {
            Some(n) => {
                value = n;
            },
            None => {
                return None;
            },
        }
        i += 1;
    }
    proof {
        assert(d.take(i - start) =~= d);
        lemma_digit_run_is(d, d.len() as int);
    }
    Some(value)
}

} // verus!
