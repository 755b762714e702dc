//! Character and string comparison helpers shared by the scanner and the
//! parser: exact equality of `&str` views and ASCII-case-insensitive
//! equality, the latter used to match mnemonics and register names.

use vstd::prelude::*;

verus! {

/// `a` and `b` are the same character up to ASCII letter case.
pub open spec fn eq_ignore_ascii_case_char(a: char, b: char) -> bool {
    ||| a == b
    ||| ('A' <= a && a <= 'Z' && b as u32 == a as u32 + 32)
    ||| ('A' <= b && b <= 'Z' && a as u32 == b as u32 + 32)
}

/// `a` and `b` are the same text up to ASCII letter case.
pub open spec fn eq_ignore_ascii_case(a: Seq<char>, b: Seq<char>) -> bool {
    &&& a.len() == b.len()
    &&& forall|i: int|
        0 <= i < a.len() ==> #[trigger] eq_ignore_ascii_case_char(a[i], b[i])
}

/// Exact string equality, decided character by character.
pub fn str_eq(a: &str, b: &str) -> (r: bool)
    ensures
        r == (a@ == b@),
{
    let la = a.unicode_len();
    let lb = b.unicode_len();
    if la != lb {
        return false;
    }
    let mut i: usize = 0;
    while i < la
        invariant
            i <= la,
            la == a@.len(),
            lb == b@.len(),
            la == lb,
            forall|j: int| 0 <= j < i ==> a@[j] == b@[j],
        decreases la - i,
    {
        if a.get_char(i) != b.get_char(i) {
            return false;
        }
        i += 1;
    }
    proof {
        assert(a@ =~= b@);
    }
    true
}

/// String equality up to ASCII letter case, decided character by character.
pub fn str_eq_ignore_ascii_case(a: &str, b: &str) -> (r: bool)
    ensures
        r == eq_ignore_ascii_case(a@, b@),
{
    let la = a.unicode_len();
    let lb = b.unicode_len();
    if la != lb {
        return false;
    }
    let mut i: usize = 0;
    while i < la
        invariant
            i <= la,
            la == a@.len(),
            lb == b@.len(),
            la == lb,
            forall|j: int| 0 <= j < i ==> #[trigger] eq_ignore_ascii_case_char(a@[j], b@[j]),
        decreases la - i,
    {
        let ca = a.get_char(i);
        let cb = b.get_char(i);
        let same = if ca == cb {
            true
        } else if 'A' <= ca && ca <= 'Z' && (cb as u32) == (ca as u32) + 32 {
            true
        } else if 'A' <= cb && cb <= 'Z' && (ca as u32) == (cb as u32) + 32 {
            true
        } else {
            false
        };
        if !same {
            assert(!eq_ignore_ascii_case_char(a@[i as int], b@[i as int]));
            return false;
        }
        i += 1;
    }
    true
}

} // verus!
