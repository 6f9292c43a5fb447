use vstd::prelude::*;
use vstd::std_specs::iter::IteratorSpec;

verus! {

/// Whether a character beyond ASCII has Unicode's Alphabetic property or a
/// numeric general category (Nd, Nl, No).
pub uninterp spec fn unicode_alphanumeric(c: char) -> bool;

/// What `char::is_alphanumeric` says of `c`: within ASCII, exactly the
/// letters and digits.
pub open spec fn alphanumeric(c: char) -> bool {
    if c <= '\x7f' {
        ('a' <= c && c <= 'z') || ('A' <= c && c <= 'Z') || ('0' <= c && c <= '9')
    } else {
        unicode_alphanumeric(c)
    }
}

/// Relies on `char::is_alphanumeric`: alphabetic or numeric, which within
/// ASCII are the letters and the digits.
#[verifier::external_body]
pub(crate) fn is_alphanumeric(c: char) -> (r: bool)
    ensures
        c <= '\x7f' ==> r == (('a' <= c && c <= 'z') || ('A' <= c && c <= 'Z') || ('0' <= c && c
            <= '9')),
        c > '\x7f' ==> r == unicode_alphanumeric(c),
{
    c.is_alphanumeric()
}

/// The characters of `s` in order.
pub fn chars_of(s: &str) -> (r: Vec<char>)
    ensures
        r@ == s@,
{
    broadcast use vstd::string::axiom_spec_iter, vstd::string::next_postcondition;

    let mut it = s.chars();
    let mut r: Vec<char> = Vec::new();
    proof {
        assert(it.remaining() == s@);
    }
    loop
        invariant
            r@ + it.remaining() == s@,
            it.decrease() is Some,
        decreases it.decrease()->0,
    {
        match it.next() {
            Some(c) => {
                r.push(c);
                proof {
                    assert(r@ + it.remaining() =~= s@);
                }
            },
            None => {
                assert(r@ =~= s@);
                return r;
            },
        }
    }
}

/// Relies on `String`'s `FromIterator<&char>`: the string of the characters of `v`.
#[verifier::external_body]
pub(crate) fn string_of(v: &Vec<char>) -> (r: String)
    ensures
        r@ == v@,
{
    v.iter().collect()
}

/// A copy of `v[lo..hi]`.
pub fn chars_between(v: &Vec<char>, lo: usize, hi: usize) -> (r: Vec<char>)
    requires
        lo <= hi <= v.len(),
    ensures
        r@ == v@.subrange(lo as int, hi as int),
{
    let mut r: Vec<char> = Vec::new();
    let mut i: usize = lo;
    while i < hi
        invariant
            lo <= i <= hi <= v.len(),
            r@ == v@.subrange(lo as int, i as int),
        decreases hi - i,
    {
        r.push(v[i]);
        i = i + 1;
        assert(r@ =~= v@.subrange(lo as int, i as int));
    }
    r
}

/// Whether `v` holds exactly the characters of `word`.
pub fn equals_chars(v: &Vec<char>, word: &[char]) -> (r: bool)
    ensures
        r == (v@ == word@),
{
    if v.len() != word.len() {
        return false;
    }
    let mut i: usize = 0;
    while i < v.len()
        invariant
            v.len() == word.len(),
            i <= v.len(),
            forall|j: int| 0 <= j < i ==> v@[j] == word@[j],
        decreases v.len() - i,
    {
        if v[i] != word[i] {
            return false;
        }
        i = i + 1;
    }
    assert(v@ =~= word@);
    true
}

/// Whether `c` occurs in `v`.
pub fn contains_char(v: &Vec<char>, c: char) -> (r: bool)
    ensures
        r == v@.contains(c),
{
    let mut i: usize = 0;
    while i < v.len()
        invariant
            i <= v.len(),
            forall|j: int| 0 <= j < i ==> v@[j] != c,
        decreases v.len() - i,
    {
        if v[i] == c {
            assert(v@[i as int] == c);
            return true;
        }
        i = i + 1;
    }
    false
}

} // verus!
