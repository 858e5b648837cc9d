//! Character-level text operations: white space, trimming, searching and
//! splitting, each with the sequence it computes.

use vstd::prelude::*;
use vstd::slice::*;
use vstd::string::*;
use vstd::utf8::*;

verus! {

/// The characters that Unicode classes as white space (`White_Space`).
pub open spec fn white_space(c: char) -> bool {
    let u = c as u32;
    ||| 0x09 <= u <= 0x0D
    ||| u == 0x20
    ||| u == 0x85
    ||| u == 0xA0
    ||| u == 0x1680
    ||| 0x2000 <= u <= 0x200A
    ||| u == 0x2028
    ||| u == 0x2029
    ||| u == 0x202F
    ||| u == 0x205F
    ||| u == 0x3000
}

/// How many white-space characters `s` starts with.
pub open spec fn leading_space(s: Seq<char>) -> nat
    decreases s.len(),
{
    if s.len() > 0 && white_space(s[0]) {
        1 + leading_space(s.drop_first())
    } else {
        0
    }
}

/// How many white-space characters `s` ends with.
pub open spec fn trailing_space(s: Seq<char>) -> nat
    decreases s.len(),
{
    if s.len() > 0 && white_space(s.last()) {
        1 + trailing_space(s.drop_last())
    } else {
        0
    }
}

/// `s` without its leading white space.
pub open spec fn trim_start(s: Seq<char>) -> Seq<char> {
    s.skip(leading_space(s) as int)
}

/// `s` without its trailing white space.
pub open spec fn trim_end(s: Seq<char>) -> Seq<char> {
    s.take(s.len() - trailing_space(s))
}

/// `s` without its leading and trailing white space.
pub open spec fn trim(s: Seq<char>) -> Seq<char> {
    trim_end(trim_start(s))
}

/// The position of the first `c` in `s`, or the length of `s` where `s`
/// holds no `c`.
pub open spec fn first_index(s: Seq<char>, c: char) -> nat
    decreases s.len(),
{
    if s.len() == 0 || s[0] == c {
        0
    } else {
        1 + first_index(s.drop_first(), c)
    }
}

/// The fields of `s` between occurrences of `sep`. There is always at
/// least one field, and a field may be empty.
pub open spec fn split(s: Seq<char>, sep: char) -> Seq<Seq<char>>
    decreases s.len(),
{
    let i = first_index(s, sep) as int;
    if i >= s.len() {
        seq![s]
    } else {
        seq![s.take(i)] + split(s.skip(i + 1), sep)
    }
}

/// A position that holds the first `c`, or the length where there is no
/// `c`, is `first_index`.
pub proof fn lemma_first_index_is(s: Seq<char>, c: char, i: int)
    requires
        0 <= i <= s.len(),
        forall|j: int| 0 <= j < i ==> s[j] != c,
        i < s.len() ==> s[i] == c,
    ensures
        first_index(s, c) == i,
    decreases s.len(),
{
    if s.len() == 0 || s[0] == c {
    } else {
        let t = s.drop_first();
        assert forall|j: int| 0 <= j < i - 1 implies t[j] != c by {
            assert(t[j] == s[j + 1]);
        }
        lemma_first_index_is(t, c, i - 1);
    }
}

/// `leading_space` counts exactly the white space before the first other
/// character.
pub proof fn lemma_leading_space_is(s: Seq<char>, n: int)
    requires
        0 <= n <= s.len(),
        forall|j: int| 0 <= j < n ==> white_space(s[j]),
        n < s.len() ==> !white_space(s[n]),
    ensures
        leading_space(s) == n,
    decreases s.len(),
{
    if n > 0 {
        let t = s.drop_first();
        assert forall|j: int| 0 <= j < n - 1 implies white_space(t[j]) by {
            assert(t[j] == s[j + 1]);
        }
        lemma_leading_space_is(t, n - 1);
    }
}

/// `trailing_space` counts exactly the white space after the last other
/// character.
pub proof fn lemma_trailing_space_is(s: Seq<char>, n: int)
    requires
        0 <= n <= s.len(),
        forall|j: int| s.len() - n <= j < s.len() ==> white_space(s[j]),
        n < s.len() ==> !white_space(s[s.len() - n - 1]),
    ensures
        trailing_space(s) == n,
    decreases s.len(),
{
    if n > 0 {
        let t = s.drop_last();
        assert forall|j: int| t.len() - (n - 1) <= j < t.len() implies white_space(t[j]) by {
            assert(t[j] == s[j]);
        }
        lemma_trailing_space_is(t, n - 1);
    }
}

/// The part of `s` between `a` and `b` is `trim(s)` where all before `a`
/// and all from `b` on is white space and the part is empty or has other
/// characters at both ends.
pub proof fn lemma_trim_is(s: Seq<char>, a: int, b: int)
    requires
        0 <= a <= b <= s.len(),
        forall|j: int| 0 <= j < a ==> white_space(s[j]),
        forall|j: int| b <= j < s.len() ==> white_space(s[j]),
        a < b ==> !white_space(s[a]) && !white_space(s[b - 1]),
    ensures
        trim(s) == s.subrange(a, b),
{
    if a < b {
        lemma_leading_space_is(s, a);
        let t = s.skip(a);
        assert(trim_start(s) == t);
        assert forall|j: int| t.len() - (s.len() - b) <= j < t.len() implies white_space(
            t[j],
        ) by {
            assert(t[j] == s[j + a]);
        }
        lemma_trailing_space_is(t, s.len() - b);
        assert(t.take(t.len() - (s.len() - b)) =~= s.subrange(a, b));
    } else {
        // every character is white space
        assert forall|j: int| 0 <= j < s.len() implies white_space(s[j]) by {
            if j < a {
            } else {
            }
        }
        lemma_leading_space_is(s, s.len() as int);
        let t = s.skip(s.len() as int);
        assert(t.len() == 0);
        assert(trim(s) =~= s.subrange(a, b));
    }
}

/// Where the trimmed part of `s` starts.
pub open spec fn trim_from(s: Seq<char>) -> int {
    leading_space(s) as int
}

/// Where the trimmed part of `s` ends.
pub open spec fn trim_to(s: Seq<char>) -> int {
    s.len() - trailing_space(trim_start(s))
}

/// The trimmed part of a text lies between `trim_from` and `trim_to`:
/// before and after it there is white space only, and it is empty or has
/// other characters at both ends.
pub proof fn lemma_trim_bounds(s: Seq<char>)
    ensures
        0 <= trim_from(s) <= trim_to(s) <= s.len(),
        forall|j: int| 0 <= j < trim_from(s) ==> white_space(s[j]),
        forall|j: int| trim_to(s) <= j < s.len() ==> white_space(s[j]),
        trim_from(s) < trim_to(s) ==> !white_space(s[trim_from(s)]) && !white_space(
            s[trim_to(s) - 1],
        ),
        trim(s) == s.subrange(trim_from(s), trim_to(s)),
{
    lemma_leading_space_bounds(s);
    let x = trim_from(s);
    let t = s.skip(x);
    lemma_trailing_space_bounds(t);
    let y = trim_to(s);
    assert forall|j: int| y <= j < s.len() implies white_space(s[j]) by {
        assert(s[j] == t[j - x]);
    }
    if x < y {
        assert(s[y - 1] == t[y - 1 - x]);
    } else {
        if t.len() > 0 {
            assert(t[0] == s[x]);
        }
    }
    assert(trim(s) =~= s.subrange(x, y));
}

/// Text with a character that is no white space is not trimmed to
/// nothing, and that character lies in the trimmed part.
pub proof fn lemma_trim_keeps(s: Seq<char>, i: int)
    requires
        0 <= i < s.len(),
        !white_space(s[i]),
    ensures
        trim_from(s) <= i < trim_to(s),
        trim(s).len() > 0,
{
    lemma_trim_bounds(s);
}

/// White space taken away at the start does not change what trimming
/// leaves.
pub proof fn lemma_trim_skip(s: Seq<char>, k: int)
    requires
        0 <= k <= s.len(),
        forall|j: int| 0 <= j < k ==> white_space(s[j]),
    ensures
        trim(s.skip(k)) == trim(s),
{
    lemma_trim_bounds(s);
    let x = trim_from(s);
    let y = trim_to(s);
    let t = s.skip(k);
    if x < y {
        assert(k <= x);
        lemma_trim_is(t, x - k, y - k);
        assert(t.subrange(x - k, y - k) =~= s.subrange(x, y));
    } else {
        assert forall|j: int| 0 <= j < t.len() implies white_space(t[j]) by {
            assert(t[j] == s[j + k]);
        }
        lemma_trim_is(t, 0, 0);
        assert(t.subrange(0, 0) =~= s.subrange(x, y));
    }
}

/// White space taken away at the end does not change what trimming
/// leaves.
pub proof fn lemma_trim_take(s: Seq<char>, k: int)
    requires
        0 <= k <= s.len(),
        forall|j: int| k <= j < s.len() ==> white_space(s[j]),
    ensures
        trim(s.take(k)) == trim(s),
{
    lemma_trim_bounds(s);
    let x = trim_from(s);
    let y = trim_to(s);
    let t = s.take(k);
    if x < y {
        assert(y <= k);
        lemma_trim_is(t, x, y);
        assert(t.subrange(x, y) =~= s.subrange(x, y));
    } else {
        assert forall|j: int| 0 <= j < t.len() implies white_space(t[j]) by {
            assert(t[j] == s[j]);
        }
        lemma_trim_is(t, 0, 0);
        assert(t.subrange(0, 0) =~= s.subrange(x, y));
    }
}

/// What `leading_space` counts is white space, and what follows is not.
pub proof fn lemma_leading_space_bounds(s: Seq<char>)
    ensures
        leading_space(s) <= s.len(),
        forall|j: int| 0 <= j < leading_space(s) ==> white_space(s[j]),
        leading_space(s) < s.len() ==> !white_space(s[leading_space(s) as int]),
    decreases s.len(),
{
    if s.len() > 0 && white_space(s[0]) {
        let t = s.drop_first();
        lemma_leading_space_bounds(t);
        assert forall|j: int| 0 <= j < leading_space(s) implies white_space(s[j]) by {
            if j > 0 {
                assert(s[j] == t[j - 1]);
            }
        }
        if leading_space(s) < s.len() {
            assert(s[leading_space(s) as int] == t[leading_space(t) as int]);
        }
    }
}

/// What `trailing_space` counts is white space, and what precedes is not.
pub proof fn lemma_trailing_space_bounds(s: Seq<char>)
    ensures
        trailing_space(s) <= s.len(),
        forall|j: int| s.len() - trailing_space(s) <= j < s.len() ==> white_space(s[j]),
        trailing_space(s) < s.len() ==> !white_space(s[s.len() - trailing_space(s) - 1]),
    decreases s.len(),
{
    if s.len() > 0 && white_space(s.last()) {
        let t = s.drop_last();
        lemma_trailing_space_bounds(t);
        assert forall|j: int| s.len() - trailing_space(s) <= j < s.len() implies white_space(
            s[j],
        ) by {
            if j < s.len() - 1 {
                assert(s[j] == t[j]);
            }
        }
        if trailing_space(s) < s.len() {
            assert(s[s.len() - trailing_space(s) - 1] == t[t.len() - trailing_space(t) - 1]);
        }
    }
}

/// Text without the separator is one field.
pub proof fn lemma_split_one(s: Seq<char>, sep: char)
    requires
        first_index(s, sep) == s.len(),
    ensures
        split(s, sep) == seq![s],
{
}

/// Text with the separator is the field before it and the fields of what
/// follows it.
pub proof fn lemma_split_more(s: Seq<char>, sep: char)
    requires
        first_index(s, sep) < s.len(),
    ensures
        split(s, sep) == seq![s.take(first_index(s, sep) as int)] + split(
            s.skip(first_index(s, sep) as int + 1),
            sep,
        ),
        split(s, sep).len() == 1 + split(s.skip(first_index(s, sep) as int + 1), sep).len(),
        split(s, sep)[0] == s.take(first_index(s, sep) as int),
        forall|i: int|
            0 <= i < split(s.skip(first_index(s, sep) as int + 1), sep).len() ==> split(s, sep)[i + 1]
                == #[trigger] split(s.skip(first_index(s, sep) as int + 1), sep)[i],
{
}

/// There is always a field.
pub proof fn lemma_split_some(s: Seq<char>, sep: char)
    ensures
        split(s, sep).len() >= 1,
{
}

/// Tells whether `c` is white space.
pub fn is_white_space(c: char) -> (b: bool)
    ensures
        b == white_space(c),
{
    let u: u32 = c as u32;
    (0x09 <= u && u <= 0x0D) || u == 0x20 || u == 0x85 || u == 0xA0 || u == 0x1680 || (0x2000 <= u
        && u <= 0x200A) || u == 0x2028 || u == 0x2029 || u == 0x202F || u == 0x205F || u == 0x3000
}

/// The characters of `text`, one by one.
pub fn chars_of(text: &str) -> (chars: Vec<char>)
    ensures
        chars@ == text@,
{
    let mut chars: Vec<char> = Vec::new();
    for c in it: text.chars()
        invariant
            chars@ == it.seq().take(it.index() as int),
    {
        chars.push(c);
    }
    chars
}

/// Tells whether two texts hold the same characters.
pub fn same_text(a: &str, b: &str) -> (same: bool)
    ensures
        same == (a@ == b@),
{
    let x = a.as_bytes();
    let y = b.as_bytes();
    if x.len() != y.len() {
        return false;
    }
    let mut i: usize = 0;
    while i < x.len()
        invariant
            i <= x.len(),
            x.len() == y.len(),
            x@ == encode_utf8(a@),
            y@ == encode_utf8(b@),
            forall|j: int| 0 <= j < i ==> x@[j] == y@[j],
        decreases x.len() - i,
    {
        if x[i] != y[i] {
            return false;
        }
        i += 1;
    }
    proof {
        assert(x@ =~= y@);
        encode_utf8_decode_utf8(a@);
        encode_utf8_decode_utf8(b@);
    }
    true
}

/// The position of the first `c` in `s`, or the length of `s` where `s`
/// holds no `c`.
pub fn find(s: &[char], c: char) -> (i: usize)
    ensures
        i == first_index(s@, c),
        i <= s.len(),
{
    let mut i: usize = 0;
    while i < s.len() && s[i] != c
        invariant
            i <= s.len(),
            forall|j: int| 0 <= j < i ==> s@[j] != c,
        decreases s.len() - i,
    {
        i += 1;
    }
    proof {
        lemma_first_index_is(s@, c, i as int);
    }
    i
}

/// `s` without its leading and trailing white space.
pub fn trimmed(s: &[char]) -> (t: &[char])
    ensures
        t@ == trim(s@),
{
    let mut a: usize = 0;
    while a < s.len() && is_white_space(s[a])
        invariant
            a <= s.len(),
            forall|j: int| 0 <= j < a ==> white_space(s@[j]),
        decreases s.len() - a,
    {
        a += 1;
    }
    let mut b: usize = s.len();
    while b > a && is_white_space(s[b - 1])
        invariant
            a <= b <= s.len(),
            forall|j: int| b <= j < s.len() ==> white_space(s@[j]),
        decreases b,
    {
        b -= 1;
    }
    proof {
        lemma_trim_is(s@, a as int, b as int);
    }
    slice_subrange(s, a, b)
}

} // verus!
