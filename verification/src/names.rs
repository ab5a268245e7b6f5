//! Segment file names: how they are made and recognised, and how they are
//! ordered.

use crate::listing::{all_segments, in_order};
use crate::order::{lemma_str_lt_asymmetric, lemma_str_lt_prefixed, shows_lt, str_lt};
use crate::segment::SegmentView;
use vstd::prelude::*;
use vstd::string::{StrSliceExecFns, StringExecFns};

verus! {

/// The character of a decimal digit.
pub open spec fn digit_char(d: int) -> char {
    if d == 0 {
        '0'
    } else if d == 1 {
        '1'
    } else if d == 2 {
        '2'
    } else if d == 3 {
        '3'
    } else if d == 4 {
        '4'
    } else if d == 5 {
        '5'
    } else if d == 6 {
        '6'
    } else if d == 7 {
        '7'
    } else if d == 8 {
        '8'
    } else {
        '9'
    }
}

/// The last `width` decimal digits of `n`, padded with zeros on the left.
pub open spec fn decimal(n: nat, width: nat) -> Seq<char>
    decreases width,
{
    if width == 0 {
        Seq::empty()
    } else {
        decimal(n / 10, (width - 1) as nat).push(digit_char((n % 10) as int))
    }
}

/// The number of digits in a segment's name: enough for any `u64`.
pub const NAME_DIGITS: usize = 20;

/// The name of segment number `n`: `sstable_` and the number in decimal,
/// padded with zeros to a fixed width, so that names sort as numbers do.
pub open spec fn segment_name(n: nat) -> Seq<char> {
    "sstable_"@ + decimal(n, NAME_DIGITS as nat)
}

/// `n` without its last `k` decimal digits.
pub open spec fn without_digits(n: nat, k: nat) -> nat
    decreases k,
{
    if k == 0 {
        n
    } else {
        without_digits(n, (k - 1) as nat) / 10
    }
}

proof fn lemma_without_digits_step(n: nat, k: nat)
    ensures
        without_digits(n / 10, k) == without_digits(n, k + 1),
    decreases k,
{
    reveal_with_fuel(without_digits, 2);
    if k > 0 {
        lemma_without_digits_step(n, (k - 1) as nat);
        assert(without_digits(n / 10, k) == without_digits(n / 10, (k - 1) as nat) / 10);
        assert(without_digits(n, k + 1) == without_digits(n, k) / 10);
    }
}

/// Digit `k` of a padded decimal, counted from the left, is the last digit
/// of the number without the digits to its right.
proof fn lemma_decimal_digit(n: nat, width: nat, k: int)
    requires
        0 <= k < width,
    ensures
        decimal(n, width).len() == width,
        decimal(n, width)[k] == digit_char(
            (without_digits(n, (width - 1 - k) as nat) % 10) as int,
        ),
    decreases width,
{
    lemma_decimal_len(n, width);
    if k < width - 1 {
        lemma_decimal_digit(n / 10, (width - 1) as nat, k);
        lemma_without_digits_step(n, (width - 2 - k) as nat);
    }
}

proof fn lemma_decimal_len(n: nat, width: nat)
    ensures
        decimal(n, width).len() == width,
    decreases width,
{
    if width > 0 {
        lemma_decimal_len(n / 10, (width - 1) as nat);
    }
}

/// The text of one decimal digit.
fn digit_text(d: u8) -> (r: &'static str)
    requires
        d < 10,
    ensures
        r@ == seq![digit_char(d as int)],
{
    proof {
        reveal_strlit("0");
        reveal_strlit("1");
        reveal_strlit("2");
        reveal_strlit("3");
        reveal_strlit("4");
        reveal_strlit("5");
        reveal_strlit("6");
        reveal_strlit("7");
        reveal_strlit("8");
        reveal_strlit("9");
    }
    let r = if d == 0 {
        "0"
    } else if d == 1 {
        "1"
    } else if d == 2 {
        "2"
    } else if d == 3 {
        "3"
    } else if d == 4 {
        "4"
    } else if d == 5 {
        "5"
    } else if d == 6 {
        "6"
    } else if d == 7 {
        "7"
    } else if d == 8 {
        "8"
    } else {
        "9"
    };
    assert(r@ =~= seq![digit_char(d as int)]);
    r
}

/// The file name of segment number `n`.
pub fn segment_file_name(n: usize) -> (name: String)
    ensures
        name@ == segment_name(n as nat),
{
    let mut digits: Vec<u8> = Vec::new();
    let mut rest: usize = n;
    while digits.len() < NAME_DIGITS
        invariant
            digits@.len() <= NAME_DIGITS,
            rest == without_digits(n as nat, digits@.len()),
            forall|j: int|
                0 <= j < digits@.len() ==> digits@[j] == without_digits(n as nat, j as nat) % 10,
        decreases NAME_DIGITS - digits@.len(),
    {
        digits.push((rest % 10) as u8);
        rest = rest / 10;
    }
    let mut name = String::from_str("sstable_");
    let mut k: usize = 0;
    while k < NAME_DIGITS
        invariant
            k <= NAME_DIGITS,
            digits@.len() == NAME_DIGITS,
            forall|j: int|
                0 <= j < digits@.len() ==> digits@[j] == without_digits(n as nat, j as nat) % 10,
            name@ == "sstable_"@ + decimal(n as nat, NAME_DIGITS as nat).subrange(0, k as int),
        decreases NAME_DIGITS - k,
    {
        let d = digits[NAME_DIGITS - 1 - k];
        proof {
            lemma_decimal_digit(n as nat, NAME_DIGITS as nat, k as int);
            let all = decimal(n as nat, NAME_DIGITS as nat);
            assert(all.subrange(0, k + 1) =~= all.subrange(0, k as int) + seq![all[k as int]]);
        }
        name.append(digit_text(d));
        k += 1;
    }
    proof {
        let all = decimal(n as nat, NAME_DIGITS as nat);
        lemma_decimal_len(n as nat, NAME_DIGITS as nat);
        assert(all.subrange(0, NAME_DIGITS as int) =~= all);
    }
    name
}

/// The name begins with `sstable`.
pub open spec fn is_segment(name: Seq<char>) -> bool {
    name.len() >= 7 && name.subrange(0, 7) == "sstable"@
}

/// Whether a file of this name is a segment: whether the name begins with
/// `sstable`.
pub fn is_segment_name(name: &str) -> (r: bool)
    ensures
        r == is_segment(name@),
{
    proof {
        reveal_strlit("sstable");
    }
    let prefix = "sstable";
    if name.unicode_len() < 7 {
        return false;
    }
    let mut i: usize = 0;
    while i < 7
        invariant
            i <= 7,
            name@.len() >= 7,
            prefix@.len() == 7,
            prefix@ == "sstable"@,
            name@.subrange(0, i as int) == prefix@.subrange(0, i as int),
        decreases 7 - i,
    {
        if name.get_char(i) != prefix.get_char(i) {
            assert(name@.subrange(0, 7)[i as int] != prefix@[i as int]);
            return false;
        }
        assert(name@.subrange(0, i + 1) =~= name@.subrange(0, i as int).push(name@[i as int]));
        assert(prefix@.subrange(0, i + 1) =~= prefix@.subrange(0, i as int).push(
            prefix@[i as int],
        ));
        i += 1;
    }
    assert(prefix@.subrange(0, 7) =~= prefix@);
    true
}

/// Ten to the power of `k`.
pub open spec fn pow10(k: nat) -> nat
    decreases k,
{
    if k == 0 {
        1
    } else {
        10 * pow10((k - 1) as nat)
    }
}

/// Segment `i` has the name that the store gives to segment number `i`.
pub open spec fn canonical(segments: Seq<SegmentView>) -> bool {
    forall|i: int|
        0 <= i < segments.len() ==> (#[trigger] segments[i]).name == segment_name(i as nat)
}

/// Padded decimals of the same width are ordered as their numbers are.
pub proof fn lemma_decimal_order(a: nat, b: nat, width: nat)
    requires
        a < b < pow10(width),
    ensures
        str_lt(decimal(a, width), decimal(b, width)),
    decreases width,
{
    if width > 0 {
        let short_a = decimal(a / 10, (width - 1) as nat);
        let short_b = decimal(b / 10, (width - 1) as nat);
        let long_a = decimal(a, width);
        let long_b = decimal(b, width);
        lemma_decimal_len(a / 10, (width - 1) as nat);
        lemma_decimal_len(b / 10, (width - 1) as nat);
        assert(long_a.subrange(0, width - 1) =~= short_a);
        assert(long_b.subrange(0, width - 1) =~= short_b);
        if a / 10 < b / 10 {
            lemma_decimal_order(a / 10, b / 10, (width - 1) as nat);
            let n = choose|n: int| shows_lt(short_a, short_b, n);
            assert(shows_lt(short_a, short_b, n));
            assert(long_a.subrange(0, n) =~= short_a.subrange(0, n));
            assert(long_b.subrange(0, n) =~= short_b.subrange(0, n));
            assert(long_a[n] == short_a[n]);
            assert(long_b[n] == short_b[n]);
            assert(shows_lt(long_a, long_b, n));
        } else {
            assert(a / 10 == b / 10);
            assert(a % 10 < b % 10);
            assert(long_a[width - 1] == digit_char((a % 10) as int));
            assert(long_b[width - 1] == digit_char((b % 10) as int));
            assert(digit_char((a % 10) as int) < digit_char((b % 10) as int));
            assert(shows_lt(long_a, long_b, width - 1));
        }
    }
}

/// The name that the store gives to a segment begins with `sstable`.
pub proof fn lemma_segment_name_is_segment(n: nat)
    ensures
        is_segment(segment_name(n)),
{
    reveal_strlit("sstable_");
    reveal_strlit("sstable");
    lemma_decimal_len(n, NAME_DIGITS as nat);
    assert(segment_name(n).subrange(0, 7) =~= "sstable"@);
}

/// The names that the store gives to its segments begin with `sstable`
/// and stand in the order of the segments' numbers.
pub proof fn lemma_canonical_in_order(segments: Seq<SegmentView>)
    requires
        canonical(segments),
        segments.len() <= pow10(NAME_DIGITS as nat),
    ensures
        all_segments(segments),
        in_order(segments),
{
    assert forall|i: int| 0 <= i < segments.len() implies is_segment(
        (#[trigger] segments[i]).name,
    ) by {
        lemma_segment_name_is_segment(i as nat);
    }
    assert forall|i: int, j: int| 0 <= i < j < segments.len() implies !str_lt(
        (#[trigger] segments[j]).name,
        (#[trigger] segments[i]).name,
    ) by {
        lemma_decimal_order(i as nat, j as nat, NAME_DIGITS as nat);
        lemma_str_lt_prefixed(
            "sstable_"@,
            decimal(i as nat, NAME_DIGITS as nat),
            decimal(j as nat, NAME_DIGITS as nat),
        );
        lemma_str_lt_asymmetric(segments[i].name, segments[j].name);
    }
}

/// Every length of a vector has a name of its own: it is below ten to the
/// number of digits in a name.
pub proof fn lemma_usize_fits(n: usize)
    ensures
        n < pow10(NAME_DIGITS as nat),
{
    reveal_with_fuel(pow10, 21);
    assert(pow10(20) == 100000000000000000000nat);
}

} // verus!
