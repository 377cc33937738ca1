use vstd::prelude::*;

verus! {

/// The four bytes of `n` in the reel's byte order, least significant first.
pub open spec fn u32_le(n: u32) -> Seq<u8> {
    seq![
        (n % 256) as u8,
        (n / 256 % 256) as u8,
        (n / 65536 % 256) as u8,
        (n / 16777216) as u8,
    ]
}

/// Encodes `n` as four bytes, least significant first.
pub fn u32_to_le(n: u32) -> (r: [u8; 4])
    ensures
        r@ == u32_le(n),
{
    let r = [(n % 256) as u8, (n / 256 % 256) as u8, (n / 65536 % 256) as u8, (n / 16777216) as u8];
    assert(r@ =~= u32_le(n));
    r
}

/// Reads the unsigned integer stored in four bytes, least significant first.
/// It is the inverse of `u32_le`.
pub fn vec_to_u32_ne(bytes: &[u8]) -> (r: u32)
    requires
        bytes@.len() == 4,
    ensures
        u32_le(r) == bytes@,
        forall|n: u32| u32_le(n) == bytes@ ==> n == r,
{
    let b0 = bytes[0] as u32;
    let b1 = bytes[1] as u32;
    let b2 = bytes[2] as u32;
    let b3 = bytes[3] as u32;
    let r = b0 + b1 * 256 + b2 * 65536 + b3 * 16777216;
    assert(r % 256 == b0 && r / 256 % 256 == b1 && r / 65536 % 256 == b2 && r / 16777216 == b3)
        by (nonlinear_arith)
        requires
            r == b0 + b1 * 256 + b2 * 65536 + b3 * 16777216,
            b0 < 256,
            b1 < 256,
            b2 < 256,
            b3 < 256,
    ;
    assert(u32_le(r) =~= bytes@);
    assert forall|n: u32| u32_le(n) == bytes@ implies n == r by {
        assert(u32_le(n)[0] == bytes@[0]);
        assert(u32_le(n)[1] == bytes@[1]);
        assert(u32_le(n)[2] == bytes@[2]);
        assert(u32_le(n)[3] == bytes@[3]);
        assert(n == n % 256 + (n / 256 % 256) * 256 + (n / 65536 % 256) * 65536 + (n / 16777216)
            * 16777216) by (nonlinear_arith);
    }
    r
}

/// Two concatenations whose first parts have one length agree part by part.
pub proof fn lemma_concat_parts(a: Seq<u8>, x: Seq<u8>, b: Seq<u8>, y: Seq<u8>)
    requires
        a + x == b + y,
        a.len() == b.len(),
    ensures
        a == b,
        x == y,
{
    assert(a =~= (a + x).take(a.len() as int));
    assert(b =~= (b + y).take(b.len() as int));
    assert(x =~= (a + x).skip(a.len() as int));
    assert(y =~= (b + y).skip(b.len() as int));
}

/// Distinct integers have distinct byte forms.
pub proof fn lemma_u32_le_injective(m: u32, n: u32)
    requires
        u32_le(m) == u32_le(n),
    ensures
        m == n,
{
    assert(u32_le(m)[0] == u32_le(n)[0]);
    assert(u32_le(m)[1] == u32_le(n)[1]);
    assert(u32_le(m)[2] == u32_le(n)[2]);
    assert(u32_le(m)[3] == u32_le(n)[3]);
    assert(m == m % 256 + (m / 256 % 256) * 256 + (m / 65536 % 256) * 65536 + (m / 16777216)
        * 16777216) by (nonlinear_arith);
    assert(n == n % 256 + (n / 256 % 256) * 256 + (n / 65536 % 256) * 65536 + (n / 16777216)
        * 16777216) by (nonlinear_arith);
}

/// Past a common head, what starts a prefix of a stream starts the rest of it.
pub proof fn lemma_prefix_after(a: Seq<u8>, b: Seq<u8>, x: Seq<u8>, rest: Seq<u8>)
    requires
        (a + b + x).is_prefix_of(a + rest),
    ensures
        b.is_prefix_of(rest),
{
    assert forall|j: int| 0 <= j < b.len() implies b[j] == rest[j] by {
        assert((a + b + x)[a.len() + j] == (a + rest)[a.len() + j]);
    }
    assert(b =~= rest.subrange(0, b.len() as int));
}

/// A source of items that can hand out several of them at once.
pub trait TakeRef<T> {
    /// The items that are still to be handed out, in order.
    spec fn pending(&self) -> Seq<T>;

    /// Takes up to `num` items; fewer only where fewer are pending.
    fn take_ref(&mut self, num: usize) -> (r: Vec<T>)
        ensures
            r@.len() == if num <= old(self).pending().len() {
                num as int
            } else {
                old(self).pending().len() as int
            },
            r@ == old(self).pending().take(r@.len() as int),
            final(self).pending() == old(self).pending().skip(r@.len() as int),
    ;
}

/// A read position in an owned byte buffer.
pub struct ByteCursor {
    bytes: Vec<u8>,
    pos: usize,
}

impl ByteCursor {
    /// The bytes from the read position to the end.
    pub closed spec fn rest(&self) -> Seq<u8> {
        if self.pos <= self.bytes@.len() {
            self.bytes@.skip(self.pos as int)
        } else {
            Seq::empty()
        }
    }

    pub fn new(bytes: Vec<u8>) -> (r: ByteCursor)
        ensures
            r.rest() == bytes@,
    {
        let r = ByteCursor { bytes, pos: 0 };
        assert(r.bytes@.skip(0) =~= r.bytes@);
        r
    }

    /// How many bytes are left to read.
    pub fn remaining(&self) -> (r: usize)
        ensures
            r == self.rest().len(),
    {
        if self.pos <= self.bytes.len() {
            self.bytes.len() - self.pos
        } else {
            0
        }
    }

    /// Reads one byte, if any is left.
    pub fn next(&mut self) -> (r: Option<u8>)
        ensures
            old(self).rest().len() == 0 ==> r is None && final(self).rest() == old(self).rest(),
            old(self).rest().len() > 0 ==> r == Some(old(self).rest()[0]) && final(self).rest()
                == old(self).rest().skip(1),
    {
        if self.pos < self.bytes.len() {
            let b = self.bytes[self.pos];
            self.pos = self.pos + 1;
            assert(self.rest() =~= old(self).rest().skip(1));
            Some(b)
        } else {
            None
        }
    }
}

impl TakeRef<u8> for ByteCursor {
    open spec fn pending(&self) -> Seq<u8> {
        self.rest()
    }

    fn take_ref(&mut self, num: usize) -> (r: Vec<u8>) {
        let mut v: Vec<u8> = Vec::new();
        let ghost start = self.rest();
        let mut k: usize = 0;
        while k < num
            invariant
                start == old(self).rest(),
                k <= num,
                v@.len() == k,
                k <= start.len(),
                v@ == start.take(k as int),
                self.rest() == start.skip(k as int),
            decreases num - k,
        {
            match self.next() {
                Some(b) => {
                    v.push(b);
                    k = k + 1;
                    assert(v@ =~= start.take(k as int));
                    assert(self.rest() =~= start.skip(k as int));
                },
                None => {
                    assert(k == start.len());
                    return v;
                },
            }
        }
        v
    }
}

} // verus!
