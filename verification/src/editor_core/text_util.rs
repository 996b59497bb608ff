//! Small helpers on chars and strings.
use vstd::prelude::*;

verus! {

/// The chars of `s`, in order.
pub fn chars_of(s: &str) -> (cs: Vec<char>)
    ensures
        cs@ == s@,
{
    let n = s.unicode_len();
    let mut cs: Vec<char> = Vec::new();
    for i in 0..n
        invariant
            n == s@.len(),
            cs@ == s@.subrange(0, i as int),
    {
        cs.push(s.get_char(i));
        assert(cs@ =~= s@.subrange(0, i + 1));
    }
    assert(cs@ =~= s@);
    cs
}

/// Whether the chars `cs` spell `lit`.
pub fn chars_are(cs: &Vec<char>, lit: &str) -> (b: bool)
    ensures
        b == (cs@ == lit@),
{
    let n = lit.unicode_len();
    if cs.len() != n {
        return false;
    }
    for i in 0..n
        invariant
            n == lit@.len(),
            cs@.len() == n,
            forall|j: int| 0 <= j < i ==> cs@[j] == lit@[j],
    {
        if cs[i] != lit.get_char(i) {
            return false;
        }
    }
    assert(cs@ =~= lit@);
    true
}

/// `char::to_string`: the one-char string holding `c`.
#[verifier::external_body]
pub(crate) fn char_to_string(c: char) -> (s: String)
    ensures
        s@ == seq![c],
{
    c.to_string()
}

} // verus!
