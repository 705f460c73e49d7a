//! Small helpers for moving between strings and character vectors.

use vstd::prelude::*;

verus! {

/// The characters of a string slice, collected into a vector.
pub fn chars_of(s: &str) -> (r: Vec<char>)
    ensures
        r@ == s@,
{
    let n = s.unicode_len();
    let mut r: Vec<char> = Vec::new();
    let mut i: usize = 0;
    while i < n
        invariant
            i <= n,
            n == s@.len(),
            r@ == s@.take(i as int),
        decreases n - i,
    {
        r.push(s.get_char(i));
        proof {
            assert(s@.take(i + 1) =~= s@.take(i as int).push(s@[i as int]));
        }
        i = i + 1;
    }
    proof {
        assert(s@.take(n as int) =~= s@);
    }
    r
}

/// Relies on `String::push` from std: appends exactly the given character
/// to the end of the string.
#[verifier::external_body]
pub(crate) fn push_char(s: &mut String, c: char)
    ensures
        final(s)@ == old(s)@.push(c),
{
    s.push(c);
}

/// A string holding the first `end` characters of `ks`.
pub(crate) fn prefix_string(ks: &Vec<char>, end: usize) -> (r: String)
    requires
        end <= ks@.len(),
    ensures
        r@ == ks@.take(end as int),
{
    let mut r = String::new();
    let mut i: usize = 0;
    while i < end
        invariant
            i <= end,
            end <= ks@.len(),
            r@ == ks@.take(i as int),
        decreases end - i,
    {
        push_char(&mut r, ks[i]);
        proof {
            assert(ks@.take(i + 1) =~= ks@.take(i as int).push(ks@[i as int]));
        }
        i = i + 1;
    }
    r
}

/// A vector holding the first `end` characters of `ks`.
pub(crate) fn prefix_vec(ks: &Vec<char>, end: usize) -> (r: Vec<char>)
    requires
        end <= ks@.len(),
    ensures
        r@ == ks@.take(end as int),
{
    let mut r: Vec<char> = Vec::new();
    let mut i: usize = 0;
    while i < end
        invariant
            i <= end,
            end <= ks@.len(),
            r@ == ks@.take(i as int),
        decreases end - i,
    {
        r.push(ks[i]);
        proof {
            assert(ks@.take(i + 1) =~= ks@.take(i as int).push(ks@[i as int]));
        }
        i = i + 1;
    }
    r
}

/// A string of `n` spaces.
pub(crate) fn spaces(n: usize) -> (r: String)
    ensures
        r@ == Seq::new(n as nat, |i: int| ' '),
{
    let mut r = String::new();
    let mut i: usize = 0;
    while i < n
        invariant
            i <= n,
            r@ == Seq::new(i as nat, |j: int| ' '),
        decreases n - i,
    {
        push_char(&mut r, ' ');
        proof {
            assert(Seq::new(i as nat, |j: int| ' ').push(' ') =~= Seq::new(
                (i + 1) as nat,
                |j: int| ' ',
            ));
        }
        i = i + 1;
    }
    r
}

} // verus!
