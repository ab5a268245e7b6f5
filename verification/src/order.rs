//! The order of strings: that of `str`, character by character.

use vstd::prelude::*;
use vstd::string::StrSliceExecFns;

verus! {

/// A place that shows `a` to come before `b`: they agree before it, and
/// there `a` ends or holds the smaller character.
pub open spec fn shows_lt(a: Seq<char>, b: Seq<char>, n: int) -> bool {
    &&& 0 <= n <= a.len()
    &&& n <= b.len()
    &&& a.subrange(0, n) == b.subrange(0, n)
    &&& if n == a.len() {
        n < b.len()
    } else {
        n < b.len() && a[n] < b[n]
    }
}

/// `a` comes before `b` in the order of `str`: at the first place where they
/// differ `a` holds the smaller character, or `a` is a proper prefix of `b`.
pub open spec fn str_lt(a: Seq<char>, b: Seq<char>) -> bool {
    exists|n: int| shows_lt(a, b, n)
}

/// Whether `a` comes before `b` in the order of `str`.
pub fn name_lt(a: &str, b: &str) -> (r: bool)
    ensures
        r == str_lt(a@, b@),
{
    let la = a.unicode_len();
    let lb = b.unicode_len();
    let mut i: usize = 0;
    while i < la && i < lb
        invariant
            la == a@.len(),
            lb == b@.len(),
            i <= la,
            i <= lb,
            a@.subrange(0, i as int) == b@.subrange(0, i as int),
        decreases la - i,
    {
        let ca = a.get_char(i);
        let cb = b.get_char(i);
        if ca != cb {
            proof {
                lemma_first_difference(a@, b@, i as int);
            }
            return ca < cb;
        }
        assert(a@.subrange(0, i + 1) =~= a@.subrange(0, i as int).push(a@[i as int]));
        assert(b@.subrange(0, i + 1) =~= b@.subrange(0, i as int).push(b@[i as int]));
        i += 1;
    }
    proof {
        lemma_prefix_order(a@, b@, i as int);
    }
    la < lb
}

/// Where two strings first differ, the characters there decide their order.
proof fn lemma_first_difference(a: Seq<char>, b: Seq<char>, i: int)
    requires
        0 <= i < a.len(),
        i < b.len(),
        a.subrange(0, i) == b.subrange(0, i),
        a[i] != b[i],
    ensures
        str_lt(a, b) == (a[i] < b[i]),
{
    if a[i] < b[i] {
        assert(shows_lt(a, b, i));
    } else if str_lt(a, b) {
        let n = choose|n: int| shows_lt(a, b, n);
        assert(shows_lt(a, b, n));
        if n > i {
            assert(a.subrange(0, n)[i] == a[i]);
            assert(b.subrange(0, n)[i] == b[i]);
        } else if n < i {
            assert(a.subrange(0, i)[n] == a[n]);
            assert(b.subrange(0, i)[n] == b[n]);
        }
    }
}

/// Where one string is a prefix of the other, the shorter comes first.
proof fn lemma_prefix_order(a: Seq<char>, b: Seq<char>, i: int)
    requires
        0 <= i <= a.len(),
        i <= b.len(),
        i == a.len() || i == b.len(),
        a.subrange(0, i) == b.subrange(0, i),
    ensures
        str_lt(a, b) == (a.len() < b.len()),
{
    if a.len() < b.len() {
        assert(shows_lt(a, b, i));
    } else if str_lt(a, b) {
        let n = choose|n: int| shows_lt(a, b, n);
        assert(shows_lt(a, b, n));
        if n < b.len() {
            assert(a.subrange(0, i)[n] == a[n]);
            assert(b.subrange(0, i)[n] == b[n]);
        }
    }
}

/// Of two strings, at most one comes before the other.
pub proof fn lemma_str_lt_asymmetric(a: Seq<char>, b: Seq<char>)
    requires
        str_lt(a, b),
    ensures
        !str_lt(b, a),
{
    if str_lt(b, a) {
        let n = choose|n: int| shows_lt(a, b, n);
        let m = choose|m: int| shows_lt(b, a, m);
        assert(shows_lt(a, b, n) && shows_lt(b, a, m));
        if n < m {
            assert(b.subrange(0, m)[n] == b[n]);
            assert(a.subrange(0, m)[n] == a[n]);
        } else if m < n {
            assert(b.subrange(0, n)[m] == b[m]);
            assert(a.subrange(0, n)[m] == a[m]);
        }
    }
}

/// Of two different strings, one comes before the other.
pub proof fn lemma_str_lt_total(a: Seq<char>, b: Seq<char>, n: int)
    requires
        0 <= n <= a.len(),
        n <= b.len(),
        a.subrange(0, n) == b.subrange(0, n),
        a != b,
    ensures
        str_lt(a, b) || str_lt(b, a),
    decreases a.len() - n,
{
    if n == a.len() {
        if n == b.len() {
            assert(a.subrange(0, n) =~= a);
            assert(b.subrange(0, n) =~= b);
        } else {
            assert(shows_lt(a, b, n));
        }
    } else if n == b.len() {
        assert(shows_lt(b, a, n));
    } else if a[n] == b[n] {
        assert(a.subrange(0, n + 1) =~= a.subrange(0, n).push(a[n]));
        assert(b.subrange(0, n + 1) =~= b.subrange(0, n).push(b[n]));
        lemma_str_lt_total(a, b, n + 1);
    } else if a[n] < b[n] {
        assert(shows_lt(a, b, n));
    } else {
        assert(shows_lt(b, a, n));
    }
}

/// The order of strings is transitive.
pub proof fn lemma_str_lt_transitive(a: Seq<char>, b: Seq<char>, c: Seq<char>)
    requires
        str_lt(a, b),
        str_lt(b, c),
    ensures
        str_lt(a, c),
{
    let n = choose|n: int| shows_lt(a, b, n);
    let m = choose|m: int| shows_lt(b, c, m);
    assert(shows_lt(a, b, n) && shows_lt(b, c, m));
    if n < m {
        assert(a.subrange(0, n) =~= c.subrange(0, n)) by {
            assert(b.subrange(0, m).subrange(0, n) =~= b.subrange(0, n));
            assert(c.subrange(0, m).subrange(0, n) =~= c.subrange(0, n));
        }
        assert(b.subrange(0, m)[n] == b[n]);
        assert(c.subrange(0, m)[n] == c[n]);
        assert(shows_lt(a, c, n));
    } else {
        assert(a.subrange(0, m) =~= c.subrange(0, m)) by {
            assert(a.subrange(0, n).subrange(0, m) =~= a.subrange(0, m));
            assert(b.subrange(0, n).subrange(0, m) =~= b.subrange(0, m));
        }
        if m < n {
            assert(a.subrange(0, n)[m] == a[m]);
            assert(b.subrange(0, n)[m] == b[m]);
        }
        assert(shows_lt(a, c, m));
    }
}

/// The order of two strings is the order of what follows a common prefix.
pub proof fn lemma_str_lt_prefixed(prefix: Seq<char>, a: Seq<char>, b: Seq<char>)
    requires
        str_lt(a, b),
    ensures
        str_lt(prefix + a, prefix + b),
{
    let n = choose|n: int| shows_lt(a, b, n);
    assert(shows_lt(a, b, n));
    let k = prefix.len() as int;
    assert((prefix + a).subrange(0, k + n) =~= prefix + a.subrange(0, n));
    assert((prefix + b).subrange(0, k + n) =~= prefix + b.subrange(0, n));
    if n < a.len() {
        assert((prefix + a)[k + n] == a[n]);
        assert((prefix + b)[k + n] == b[n]);
    }
    assert(shows_lt(prefix + a, prefix + b, k + n));
}

} // verus!
