//! Addresses of the form `IPv4:PORT`.

use vstd::prelude::*;
use vstd::string::StrSliceExecFns;

verus! {

/// How often `c` occurs among the first `n` characters of `s`.
pub open spec fn occurrences(s: Seq<char>, c: char, n: int) -> nat
    decreases n,
{
    if n <= 0 {
        0
    } else if s[n - 1] == c {
        occurrences(s, c, n - 1) + 1
    } else {
        occurrences(s, c, n - 1)
    }
}

/// The character is a decimal digit.
pub open spec fn is_digit(c: char) -> bool {
    '0' <= c <= '9'
}

/// The character may stand in an address: a digit, a dot or a colon.
pub open spec fn is_address_char(c: char) -> bool {
    c == ':' || c == '.' || is_digit(c)
}

/// The syntax of an address: digits, exactly three dots and exactly one
/// colon, and nothing else.
pub open spec fn valid_address(s: Seq<char>) -> bool {
    &&& forall|i: int| 0 <= i < s.len() ==> is_address_char(#[trigger] s[i])
    &&& occurrences(s, ':', s.len() as int) == 1
    &&& occurrences(s, '.', s.len() as int) == 3
}

/// A character is counted no more often in a prefix than in the whole.
pub proof fn lemma_occurrences_grow(s: Seq<char>, c: char, n: int, m: int)
    requires
        0 <= n <= m,
    ensures
        occurrences(s, c, n) <= occurrences(s, c, m) <= occurrences(s, c, n) + (m - n),
    decreases m - n,
{
    if n < m {
        lemma_occurrences_grow(s, c, n, m - 1);
    }
}

/// Checks the syntax of an address.
pub fn valid(address: &String) -> (r: bool)
    ensures
        r == valid_address(address@),
{
    let text = address.as_str();
    let len = text.unicode_len();
    let mut colon_number: usize = 0;
    let mut point_number: usize = 0;
    let mut i: usize = 0;
    while i < len
        invariant
            text@ == address@,
            len == text@.len(),
            i <= len,
            forall|j: int| 0 <= j < i ==> is_address_char(#[trigger] text@[j]),
            colon_number == occurrences(text@, ':', i as int),
            point_number == occurrences(text@, '.', i as int),
            colon_number <= 1,
            point_number <= 3,
        decreases len - i,
    {
        let item = text.get_char(i);
        if item == ':' {
            colon_number += 1;
            if colon_number > 1 {
                proof {
                    lemma_occurrences_grow(text@, ':', i + 1, len as int);
                }
                return false;
            }
        } else if item == '.' {
            point_number += 1;
            if point_number > 3 {
                proof {
                    lemma_occurrences_grow(text@, '.', i + 1, len as int);
                }
                return false;
            }
        } else if !(item >= '0' && item <= '9') {
            return false;
        }
        i += 1;
    }
    colon_number == 1 && point_number == 3
}

/// The address that is used where none is given.
pub open spec fn default_address() -> Seq<char> {
    "127.0.0.1:4000"@
}

/// The default address has the syntax of an address.
pub proof fn lemma_default_address_valid()
    ensures
        valid_address(default_address()),
{
    reveal_strlit("127.0.0.1:4000");
    reveal_with_fuel(occurrences, 15);
    let s = default_address();
    assert(s.len() == 14);
    assert(occurrences(s, ':', 14) == 1);
    assert(occurrences(s, '.', 14) == 3);
}

/// Settles the address to use: the default one where none is given, the
/// given one where it has the syntax of an address, and none where it has
/// not.
pub fn resolve_address(given: Option<String>) -> (r: Option<String>)
    ensures
        match given {
            None => r matches Some(address) && address@ == default_address(),
            Some(wanted) => if valid_address(wanted@) {
                r matches Some(address) && address@ == wanted@
            } else {
                r is None
            },
        },
{
    match given {
        None => Some("127.0.0.1:4000".to_string()),
        Some(wanted) => {
            if valid(&wanted) {
                Some(wanted)
            } else {
                None
            }
        },
    }
}

} // verus!
