//! Shared, immutable byte ranges that decoders slice without copying.
use std::rc::Rc;
use vstd::prelude::*;

verus! {

/// Relies on `Rc::clone`: the new pointer refers to the same allocation, so it
/// holds the same bytes.
#[verifier::external_body]
fn share_bytes(b: &Rc<Vec<u8>>) -> (r: Rc<Vec<u8>>)
    ensures
        r@ == b@,
{
    Rc::clone(b)
}

/// An immutable, reference-counted byte range. Sub-ranges share the root
/// allocation.
#[derive(Debug)]
pub struct Buffer {
    data: Rc<Vec<u8>>,
    start: usize,
    len: usize,
}

impl View for Buffer {
    type V = Seq<u8>;

    closed spec fn view(&self) -> Seq<u8> {
        self.data@.subrange(self.start as int, self.start + self.len)
    }
}

impl Buffer {
    /// The range lies inside its root allocation.
    #[verifier::type_invariant]
    spec fn inv(&self) -> bool {
        self.start + self.len <= self.data@.len() <= usize::MAX
    }

    pub fn new(v: Vec<u8>) -> (r: Buffer)
        ensures
            r@ == v@,
    {
        let len = v.len();
        Buffer { data: Rc::new(v), start: 0, len }
    }

    pub fn len(&self) -> (r: usize)
        ensures
            r == self@.len(),
    {
        proof {
            use_type_invariant(self);
        }
        self.len
    }

    pub fn get(&self, i: usize) -> (r: u8)
        requires
            i < self@.len(),
        ensures
            r == self@[i as int],
    {
        proof {
            use_type_invariant(self);
        }
        let v: &Vec<u8> = &*self.data;
        v[self.start + i]
    }

    /// The sub-range of `len` bytes from `start`, sharing this buffer's bytes.
    pub fn range(&self, start: usize, len: usize) -> (r: Buffer)
        requires
            start + len <= self@.len(),
        ensures
            r@ == self@.subrange(start as int, start + len),
    {
        proof {
            use_type_invariant(self);
        }
        let r = Buffer { data: share_bytes(&self.data), start: self.start + start, len };
        assert(r@ =~= self@.subrange(start as int, start + len));
        r
    }

    /// The bytes from `start` to the end.
    pub fn start_from(&self, start: usize) -> (r: Buffer)
        requires
            start <= self@.len(),
        ensures
            r@ == self@.subrange(start as int, self@.len() as int),
    {
        proof {
            use_type_invariant(self);
        }
        self.range(start, self.len - start)
    }

    /// Another handle on the same bytes.
    pub fn all(&self) -> (r: Buffer)
        ensures
            r@ == self@,
    {
        proof {
            use_type_invariant(self);
        }
        Buffer { data: share_bytes(&self.data), start: self.start, len: self.len }
    }

    /// A copy of the bytes.
    pub fn to_vec(&self) -> (r: Vec<u8>)
        ensures
            r@ == self@,
    {
        proof {
            use_type_invariant(self);
        }
        let mut out: Vec<u8> = Vec::new();
        let mut i: usize = 0;
        while i < self.len
            invariant
                i <= self.len,
                self.len == self@.len(),
                out@ == self@.subrange(0, i as int),
            decreases self.len - i,
        {
            out.push(self.get(i));
            i = i + 1;
            assert(out@ =~= self@.subrange(0, i as int));
        }
        assert(out@ =~= self@);
        out
    }
}

} // verus!
