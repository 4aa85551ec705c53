//! Keys that a trie can hold: anything that reads as a sequence of
//! characters.

use vstd::prelude::*;

verus! {

pub trait ToKeyIter {
    /// The characters of the key.
    spec fn key_chars(&self) -> Seq<char>;

    /// The characters of the key, in order.
    fn key_iter(&self) -> (r: Vec<char>)
        ensures
            r@ == self.key_chars(),
    ;
}

/// The characters of `s`, in order.
fn chars_of(s: &str) -> (r: Vec<char>)
    ensures
        r@ == s@,
{
    let n = s.unicode_len();
    let mut out: Vec<char> = Vec::new();
    let mut i: usize = 0;
    while i < n
        invariant
            n == s@.len(),
            i <= n,
            out@ == s@.take(i as int),
        decreases n - i,
    {
        out.push(s.get_char(i));
        i += 1;
        proof {
            assert(out@ =~= s@.take(i as int));
        }
    }
    proof {
        assert(s@.take(n as int) =~= s@);
    }
    out
}

impl ToKeyIter for str {
    open spec fn key_chars(&self) -> Seq<char> {
        self@
    }

    fn key_iter(&self) -> (r: Vec<char>) {
        chars_of(self)
    }
}

impl ToKeyIter for String {
    open spec fn key_chars(&self) -> Seq<char> {
        self@
    }

    fn key_iter(&self) -> (r: Vec<char>) {
        chars_of(self.as_str())
    }
}

} // verus!
