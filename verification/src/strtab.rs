//! Name resolution against a loaded string table: a forward scan from a byte
//! offset to the first zero byte, or to the end of the table when no zero
//! byte follows.

use vstd::prelude::*;
use vstd::string::StrSliceExecFns;
use crate::model::spec_name_chars;

verus! {

/// Relies on String::push: appends exactly the given character.
#[verifier::external_body]
fn push_char(s: &mut String, c: char)
    ensures
        final(s)@ == old(s)@.push(c),
{
    s.push(c)
}

/// Resolves the name stored at `start` in a string table: every byte from
/// `start` up to the first zero byte — or up to the end of the table when no
/// zero byte follows — taken as one character each. An offset at or past the
/// end of the table yields the empty name.
pub fn get_elf_string(data: &Vec<u8>, start: usize) -> (r: String)
    ensures
        r@ == spec_name_chars(data@, start as int),
{
    let n = data.len();
    let mut out = String::new();
    let mut i = start;
    proof {
        assert(out@ + spec_name_chars(data@, i as int) =~= spec_name_chars(data@, start as int));
    }
    while i < n && data[i] != 0
        invariant
            start <= i,
            i <= n || i == start,
            n == data@.len(),
            out@ + spec_name_chars(data@, i as int) == spec_name_chars(data@, start as int),
        decreases n - i,
    {
        let ghost prev = out@;
        let c = data[i] as char;
        push_char(&mut out, c);
        proof {
            assert(spec_name_chars(data@, i as int) =~= seq![data@[i as int] as char]
                + spec_name_chars(data@, i + 1));
            assert(out@ + spec_name_chars(data@, i + 1) =~= prev + spec_name_chars(
                data@,
                i as int,
            ));
        }
        i = i + 1;
    }
    proof {
        assert(spec_name_chars(data@, i as int) == Seq::<char>::empty());
        assert(out@ + Seq::<char>::empty() =~= out@);
    }
    out
}

/// Character-for-character string equality, proved against the string views.
pub fn str_eq(a: &str, b: &str) -> (r: bool)
    ensures
        r == (a@ == b@),
{
    let na = a.unicode_len();
    let nb = b.unicode_len();
    if na != nb {
        return false;
    }
    let mut i: usize = 0;
    while i < na
        invariant
            na == a@.len(),
            nb == b@.len(),
            na == nb,
            i <= na,
            forall|j: int| 0 <= j < i ==> a@[j] == b@[j],
        decreases na - i,
    {
        if a.get_char(i) != b.get_char(i) {
            return false;
        }
        i = i + 1;
    }
    proof {
        assert(a@ =~= b@);
    }
    true
}

} // verus!
