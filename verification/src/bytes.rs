//! A byte string handed to the engine: borrowed or owned; keys and
//! values are compared by their bytes alone.
use vstd::prelude::*;

verus! {

/// A borrowed or owned byte string.
#[derive(Debug)]
pub enum Bytes<'a> {
    Slice(&'a [u8]),
    Vec(Vec<u8>),
}

impl<'a> View for Bytes<'a> {
    type V = Seq<u8>;

    open spec fn view(&self) -> Seq<u8> {
        match self {
            Bytes::Slice(s) => s@,
            Bytes::Vec(v) => v@,
        }
    }
}

impl<'a> Bytes<'a> {
    /// How many bytes the string holds.
    pub fn len(&self) -> (r: usize)
        ensures
            r == self@.len(),
    {
        match self {
            Bytes::Slice(s) => s.len(),
            Bytes::Vec(v) => v.len(),
        }
    }

    /// The bytes as a fresh owned vector.
    pub fn to_vec(&self) -> (r: Vec<u8>)
        ensures
            r@ == self@,
    {
        match self {
            Bytes::Slice(s) => {
                let n = s.len();
                let mut out: Vec<u8> = Vec::new();
                let mut i: usize = 0;
                while i < n
                    invariant
                        0 <= i <= n,
                        n == s@.len(),
                        out@ == s@.subrange(0, i as int),
                    decreases n - i,
                {
                    out.push(s[i]);
                    proof {
                        assert(out@ =~= s@.subrange(0, i + 1));
                    }
                    i = i + 1;
                }
                proof {
                    assert(out@ =~= s@);
                }
                out
            },
            Bytes::Vec(v) => crate::codec::copy_bytes(v),
        }
    }
}

} // verus!
