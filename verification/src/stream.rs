use vstd::prelude::*;

verus! {

/// An in-memory byte source: the bytes a transport has delivered so far,
/// together with a read cursor. The view is the not-yet-consumed suffix;
/// reaching its end models the peer closing the connection.
pub struct ByteStream {
    data: Vec<u8>,
    pos: usize,
}

impl View for ByteStream {
    type V = Seq<u8>;

    closed spec fn view(&self) -> Seq<u8> {
        self.data@.subrange(self.pos as int, self.data@.len() as int)
    }
}

impl ByteStream {
    #[verifier::type_invariant]
    spec fn cursor_in_bounds(self) -> bool {
        self.pos <= self.data@.len()
    }

    pub fn new(data: Vec<u8>) -> (s: Self)
        ensures
            s@ == data@,
    {
        let s = ByteStream { data, pos: 0 };
        proof {
            assert(s@ =~= s.data@);
        }
        s
    }

    pub fn remaining(&self) -> (n: usize)
        ensures
            n == self@.len(),
    {
        proof {
            use_type_invariant(self);
        }
        self.data.len() - self.pos
    }

    pub fn get(&self, i: usize) -> (b: u8)
        requires
            i < self@.len(),
        ensures
            b == self@[i as int],
    {
        let dl = self.data.len();
        proof {
            use_type_invariant(self);
            assert(self@.len() == dl - self.pos);
        }
        self.data[self.pos + i]
    }

    /// Consume the first `n` unread bytes and return them.
    pub fn take(&mut self, n: usize) -> (out: Vec<u8>)
        requires
            n <= old(self)@.len(),
        ensures
            out@ == old(self)@.take(n as int),
            final(self)@ == old(self)@.skip(n as int),
    {
        proof {
            use_type_invariant(&*self);
        }
        let mut out: Vec<u8> = Vec::new();
        let mut j: usize = 0;
        while j < n
            invariant
                j <= n,
                n <= old(self)@.len(),
                *self == *old(self),
                out@ == self@.subrange(0, j as int),
            decreases n - j,
        {
            out.push(self.get(j));
            j += 1;
        }
        let dl = self.data.len();
        proof {
            use_type_invariant(&*self);
            assert(self@.len() == dl - self.pos);
            assert(out@ =~= old(self)@.take(n as int));
        }
        self.pos = self.pos + n;
        proof {
            assert(self@ =~= old(self)@.skip(n as int));
        }
        out
    }

    /// Advance past up to `n` unread bytes (all of them if fewer remain).
    pub fn advance(&mut self, n: usize)
        ensures
            final(self)@ == old(self)@.skip(
                if n <= old(self)@.len() {
                    n as int
                } else {
                    old(self)@.len() as int
                },
            ),
    {
        proof {
            use_type_invariant(&*self);
        }
        let rem = self.data.len() - self.pos;
        if n <= rem {
            self.pos = self.pos + n;
            proof {
                assert(self@ =~= old(self)@.skip(n as int));
            }
        } else {
            self.pos = self.data.len();
            proof {
                assert(self@ =~= old(self)@.skip(old(self)@.len() as int));
            }
        }
    }
}

} // verus!
