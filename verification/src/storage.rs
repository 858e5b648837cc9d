//! The name under which the capture of a record is stored, and why no
//! two records share a name.

use crate::encoding::text_of;
use crate::handler::{tag_of, CaptureRecord, RecordKind};
use crate::number::{decimal_value, digit, digit_value};
use crate::text::lemma_first_index_is;
use vstd::prelude::*;
use vstd::string::*;

verus! {

/// The character that writes the digit `d`.
pub open spec fn digit_char(d: nat) -> char {
    ((48 + d) as u8) as char
}

/// The digits that write `n` in base ten, without leading zeros.
pub open spec fn decimal_digits(n: nat) -> Seq<char>
    decreases n,
{
    if n < 10 {
        seq![digit_char(n)]
    } else {
        decimal_digits(n / 10).push(digit_char(n % 10))
    }
}

/// `digits` with zeros before them where they are fewer than `width`.
pub open spec fn zero_padded(digits: Seq<char>, width: nat) -> Seq<char> {
    if digits.len() >= width {
        digits
    } else {
        Seq::new((width - digits.len()) as nat, |i: int| '0') + digits
    }
}

/// The width to which the sequence number in a file name is padded.
pub const SEQUENCE_WIDTH: usize = 5;

/// The name of the file that stores a capture: the sequence number in at
/// least five digits, the address of the peer and the tag of the kind,
/// with hyphens between them.
pub open spec fn file_name_of(sequence: u32, peer_address: Seq<char>, kind: RecordKind) -> Seq<
    char,
> {
    sequence_digits(sequence) + seq!['-'] + peer_address + seq!['-'] + tag_of(kind)
}

/// The sequence number as a file name writes it.
pub open spec fn sequence_digits(sequence: u32) -> Seq<char> {
    zero_padded(decimal_digits(sequence as nat), SEQUENCE_WIDTH as nat)
}

/// All characters of `s` are digits.
pub open spec fn all_digits(s: Seq<char>) -> bool {
    forall|i: int| 0 <= i < s.len() ==> digit(s[i])
}

/// The digits of a number are digits, and they write the number.
proof fn lemma_decimal_digits(n: nat)
    ensures
        decimal_digits(n).len() > 0,
        all_digits(decimal_digits(n)),
        decimal_value(decimal_digits(n)) == n,
    decreases n,
{
    let d = decimal_digits(n);
    if n < 10 {
        assert(d.drop_last() =~= Seq::<char>::empty());
        assert(decimal_value(d.drop_last()) == 0);
        assert(digit_value(d.last()) == n);
    } else {
        lemma_decimal_digits(n / 10);
        assert(d.drop_last() =~= decimal_digits(n / 10));
        assert(digit_value(d.last()) == n % 10);
    }
}

/// Zeros before digits do not change the number that they write.
proof fn lemma_zeros_before(zeros: nat, d: Seq<char>)
    ensures
        decimal_value(Seq::new(zeros, |i: int| '0') + d) == decimal_value(d),
    decreases d.len(), zeros,
{
    let z = Seq::new(zeros, |i: int| '0');
    let all = z + d;
    if d.len() > 0 {
        assert(all.drop_last() =~= z + d.drop_last());
        assert(all.last() == d.last());
        lemma_zeros_before(zeros, d.drop_last());
    } else if zeros > 0 {
        let fewer = Seq::new((zeros - 1) as nat, |i: int| '0');
        assert(all.drop_last() =~= fewer + d);
        assert(all.last() == '0');
        lemma_zeros_before((zeros - 1) as nat, d);
    } else {
        assert(all =~= Seq::<char>::empty());
    }
}

/// The sequence number is written in digits, five at least, and they
/// write no other number.
pub proof fn lemma_sequence_digits(sequence: u32)
    ensures
        sequence_digits(sequence).len() >= SEQUENCE_WIDTH,
        all_digits(sequence_digits(sequence)),
        decimal_value(sequence_digits(sequence)) == sequence,
{
    let d = decimal_digits(sequence as nat);
    lemma_decimal_digits(sequence as nat);
    if d.len() < SEQUENCE_WIDTH {
        lemma_zeros_before((SEQUENCE_WIDTH - d.len()) as nat, d);
    }
}

/// No two records share a file name: equal names have equal sequence
/// numbers, whatever the peers and the kinds.
pub proof fn lemma_file_names_differ(
    first: u32,
    first_peer: Seq<char>,
    first_kind: RecordKind,
    second: u32,
    second_peer: Seq<char>,
    second_kind: RecordKind,
)
    requires
        file_name_of(first, first_peer, first_kind) == file_name_of(
            second,
            second_peer,
            second_kind,
        ),
    ensures
        first == second,
{
    let a = sequence_digits(first);
    let b = sequence_digits(second);
    let name = file_name_of(first, first_peer, first_kind);
    let other = file_name_of(second, second_peer, second_kind);
    lemma_sequence_digits(first);
    lemma_sequence_digits(second);
    assert forall|j: int| 0 <= j < a.len() implies name[j] != '-' by {
        assert(name[j] == a[j]);
        assert(digit(a[j]));
    }
    assert(name[a.len() as int] == '-');
    lemma_first_index_is(name, '-', a.len() as int);
    assert forall|j: int| 0 <= j < b.len() implies other[j] != '-' by {
        assert(other[j] == b[j]);
        assert(digit(b[j]));
    }
    assert(other[b.len() as int] == '-');
    lemma_first_index_is(other, '-', b.len() as int);
    assert(a.len() == b.len());
    assert(a =~= name.take(a.len() as int));
    assert(b =~= other.take(b.len() as int));
}

/// The order of texts in which file names are listed: at the first
/// place where two texts differ the smaller character decides, and a
/// text comes before each of its continuations.
pub open spec fn listed_before(a: Seq<char>, b: Seq<char>) -> bool
    decreases a.len(),
{
    if b.len() == 0 {
        false
    } else if a.len() == 0 {
        true
    } else if a[0] != b[0] {
        (a[0] as u32) < (b[0] as u32)
    } else {
        listed_before(a.drop_first(), b.drop_first())
    }
}

/// The sequence numbers up to which file names are listed in the order
/// of their sequence numbers: those that five digits write.
pub open spec fn padded_limit() -> nat {
    100000
}

/// Texts that agree up to a place where the first has the smaller
/// character are listed in that order.
proof fn lemma_listed_before(a: Seq<char>, b: Seq<char>, i: int)
    requires
        0 <= i < a.len(),
        i < b.len(),
        forall|j: int| 0 <= j < i ==> a[j] == b[j],
        (a[i] as u32) < (b[i] as u32),
    ensures
        listed_before(a, b),
    decreases i,
{
    if i > 0 {
        let x = a.drop_first();
        let y = b.drop_first();
        assert(a[0] == b[0]);
        assert forall|j: int| 0 <= j < i - 1 implies x[j] == y[j] by {
            assert(x[j] == a[j + 1] && y[j] == b[j + 1]);
        }
        assert(x[i - 1] == a[i] && y[i - 1] == b[i]);
        lemma_listed_before(x, y, i - 1);
    }
}

/// Of two runs of equally many digits the one that writes the smaller
/// number has the smaller digit at the first place where they differ.
proof fn lemma_digits_in_order(a: Seq<char>, b: Seq<char>) -> (i: int)
    requires
        a.len() == b.len(),
        all_digits(a),
        all_digits(b),
        decimal_value(a) < decimal_value(b),
    ensures
        0 <= i < a.len(),
        forall|j: int| 0 <= j < i ==> a[j] == b[j],
        (a[i] as u32) < (b[i] as u32),
    decreases a.len(),
{
    let x = a.drop_last();
    let y = b.drop_last();
    assert(a.len() > 0);
    assert(digit(a.last()) && digit(b.last()));
    assert(all_digits(x)) by {
        assert forall|j: int| 0 <= j < x.len() implies digit(x[j]) by {
            assert(x[j] == a[j]);
        }
    }
    assert(all_digits(y)) by {
        assert forall|j: int| 0 <= j < y.len() implies digit(y[j]) by {
            assert(y[j] == b[j]);
        }
    }
    if decimal_value(x) < decimal_value(y) {
        let i = lemma_digits_in_order(x, y);
        assert forall|j: int| 0 <= j < i implies a[j] == b[j] by {
            assert(x[j] == a[j] && y[j] == b[j]);
        }
        assert(x[i] == a[i] && y[i] == b[i]);
        i
    } else {
        assert(decimal_value(x) == decimal_value(y));
        lemma_digits_same(x, y);
        assert forall|j: int| 0 <= j < a.len() - 1 implies a[j] == b[j] by {
            assert(x[j] == a[j] && y[j] == b[j]);
        }
        a.len() - 1
    }
}

/// Runs of equally many digits that write the same number are the same.
proof fn lemma_digits_same(a: Seq<char>, b: Seq<char>)
    requires
        a.len() == b.len(),
        all_digits(a),
        all_digits(b),
        decimal_value(a) == decimal_value(b),
    ensures
        a == b,
    decreases a.len(),
{
    if a.len() > 0 {
        let x = a.drop_last();
        let y = b.drop_last();
        assert(digit(a.last()) && digit(b.last()));
        assert forall|j: int| 0 <= j < x.len() implies digit(x[j]) && digit(y[j]) by {
            assert(x[j] == a[j] && y[j] == b[j]);
        }
        assert(decimal_value(x) == decimal_value(y) && digit_value(a.last()) == digit_value(
            b.last(),
        ));
        lemma_digits_same(x, y);
        assert(a.last() == b.last());
        assert(a =~= x.push(a.last()));
        assert(b =~= y.push(b.last()));
    }
    assert(a =~= b);
}

/// A number below the limit is written in five digits at most.
proof fn lemma_few_digits(n: nat)
    requires
        n < padded_limit(),
    ensures
        decimal_digits(n).len() <= SEQUENCE_WIDTH,
{
    reveal_with_fuel(decimal_digits, 6);
    assert(n / 10 < 10000);
    assert(n / 10 / 10 < 1000);
    assert(n / 10 / 10 / 10 < 100);
    assert(n / 10 / 10 / 10 / 10 < 10);
}

/// Up to the limit of five digits, file names are listed in the order of
/// their sequence numbers, whatever the peers and the kinds.
pub proof fn lemma_file_names_in_order(
    first: u32,
    first_peer: Seq<char>,
    first_kind: RecordKind,
    second: u32,
    second_peer: Seq<char>,
    second_kind: RecordKind,
)
    requires
        first < second < padded_limit(),
    ensures
        listed_before(
            file_name_of(first, first_peer, first_kind),
            file_name_of(second, second_peer, second_kind),
        ),
{
    let a = sequence_digits(first);
    let b = sequence_digits(second);
    let name = file_name_of(first, first_peer, first_kind);
    let other = file_name_of(second, second_peer, second_kind);
    lemma_sequence_digits(first);
    lemma_sequence_digits(second);
    lemma_few_digits(first as nat);
    lemma_few_digits(second as nat);
    assert(a.len() == SEQUENCE_WIDTH && b.len() == SEQUENCE_WIDTH);
    let i = lemma_digits_in_order(a, b);
    assert forall|j: int| 0 <= j < i implies name[j] == other[j] by {
        assert(name[j] == a[j] && other[j] == b[j]);
    }
    assert(name[i] == a[i] && other[i] == b[i]);
    lemma_listed_before(name, other, i);
}

/// Writes `n` in base ten at the end of `out`.
fn push_decimal(n: u32, out: &mut Vec<char>)
    ensures
        final(out)@ == old(out)@ + decimal_digits(n as nat),
    decreases n,
{
    if n >= 10 {
        push_decimal(n / 10, out);
    }
    let d: u8 = (n % 10) as u8;
    out.push((48 + d) as char);
    assert(out@ =~= old(out)@ + decimal_digits(n as nat));
}

impl CaptureRecord {
    /// The name of the file that stores the capture of this record.
    pub fn file_name(&self) -> (name: String)
        ensures
            name@ == file_name_of(self.sequence, self.peer_address@, self.kind),
    {
        let mut digits: Vec<char> = Vec::new();
        push_decimal(self.sequence, &mut digits);
        assert(digits@ =~= decimal_digits(self.sequence as nat));
        let mut chars: Vec<char> = Vec::new();
        let mut width: usize = digits.len();
        while width < SEQUENCE_WIDTH
            invariant
                digits@ == decimal_digits(self.sequence as nat),
                digits.len() <= width,
                digits.len() < SEQUENCE_WIDTH ==> width <= SEQUENCE_WIDTH,
                digits.len() >= SEQUENCE_WIDTH ==> width == digits.len(),
                chars@ == Seq::new((width - digits.len()) as nat, |i: int| '0'),
            decreases SEQUENCE_WIDTH - width,
        {
            chars.push('0');
            width += 1;
            assert(chars@ =~= Seq::new((width - digits.len()) as nat, |i: int| '0'));
        }
        let ghost zeros = chars@;
        let mut digits = digits;
        chars.append(&mut digits);
        assert(chars@ == zeros + decimal_digits(self.sequence as nat));
        assert(chars@ =~= zero_padded(decimal_digits(self.sequence as nat), SEQUENCE_WIDTH as nat));
        let mut name = text_of(chars.as_slice());
        proof {
            reveal_strlit("-");
            assert("-"@ =~= seq!['-']);
        }
        name.append("-");
        name.append(self.peer_address.as_str());
        name.append("-");
        name.append(self.kind.tag());
        name
    }
}

} // verus!
