use vstd::prelude::*;

use crate::color::{Rgb, decode_rgb, lemma_rgb_hex_injective, push_rgb_hex, rgb_hex};
use crate::cursor::{ByteCursor, TakeRef, lemma_concat_parts};
use crate::error::FormatError;

verus! {

/// The hex digits of a row-major pixel sequence, six per pixel, nothing between.
pub open spec fn pixels_hex(p: Seq<Rgb>) -> Seq<u8>
    decreases p.len(),
{
    if p.len() == 0 {
        Seq::empty()
    } else {
        rgb_hex(p[0]) + pixels_hex(p.drop_first())
    }
}

pub proof fn lemma_pixels_hex_concat(a: Seq<Rgb>, b: Seq<Rgb>)
    ensures
        pixels_hex(a + b) == pixels_hex(a) + pixels_hex(b),
        pixels_hex(a).len() == 6 * a.len(),
    decreases a.len(),
{
    if a.len() == 0 {
        assert(a + b =~= b);
        assert(pixels_hex(a) + pixels_hex(b) =~= pixels_hex(b));
    } else {
        lemma_pixels_hex_concat(a.drop_first(), b);
        assert((a + b).drop_first() =~= a.drop_first() + b);
        assert(pixels_hex(a + b) =~= pixels_hex(a) + pixels_hex(b));
    }
}

/// Pixel sequences of one length with a common hex form, each followed by
/// whatever comes next in a stream, are equal and so is what follows them.
pub proof fn lemma_pixels_hex_unique(p: Seq<Rgb>, q: Seq<Rgb>, x: Seq<u8>, y: Seq<u8>)
    requires
        p.len() == q.len(),
        pixels_hex(p) + x == pixels_hex(q) + y,
    ensures
        p == q,
        x == y,
    decreases p.len(),
{
    if p.len() == 0 {
        assert(pixels_hex(p) + x =~= x);
        assert(pixels_hex(q) + y =~= y);
        assert(p =~= q);
    } else {
        let tp = pixels_hex(p.drop_first()) + x;
        let tq = pixels_hex(q.drop_first()) + y;
        assert(pixels_hex(p) + x =~= rgb_hex(p[0]) + tp);
        assert(pixels_hex(q) + y =~= rgb_hex(q[0]) + tq);
        lemma_concat_parts(rgb_hex(p[0]), tp, rgb_hex(q[0]), tq);
        lemma_rgb_hex_injective(p[0], q[0]);
        lemma_pixels_hex_unique(p.drop_first(), q.drop_first(), x, y);
        assert(p =~= seq![p[0]] + p.drop_first());
        assert(q =~= seq![q[0]] + q.drop_first());
    }
}

proof fn lemma_pixels_hex_push(a: Seq<Rgb>, x: Rgb)
    ensures
        pixels_hex(a.push(x)) == pixels_hex(a) + rgb_hex(x),
{
    let one = seq![x];
    lemma_pixels_hex_concat(a, one);
    assert(a + one =~= a.push(x));
    assert(one.drop_first() =~= Seq::<Rgb>::empty());
    assert(pixels_hex(one.drop_first()) =~= Seq::<u8>::empty());
    assert(pixels_hex(one) =~= rgb_hex(x));
}

/// Number of positions at which two pixel sequences differ exactly.
pub open spec fn gross_diff(a: Seq<Rgb>, b: Seq<Rgb>) -> nat
    decreases a.len(),
{
    if a.len() == 0 {
        0
    } else {
        gross_diff(a.drop_last(), b.drop_last()) + if a.last() != b[a.len() - 1] {
            1nat
        } else {
            0nat
        }
    }
}

proof fn lemma_gross_diff_le(a: Seq<Rgb>, b: Seq<Rgb>)
    ensures
        gross_diff(a, b) <= a.len(),
    decreases a.len(),
{
    if a.len() > 0 {
        lemma_gross_diff_le(a.drop_last(), b.drop_last());
    }
}

/// One frame's pixels, row-major.
#[derive(Clone, Debug)]
pub struct Bruh {
    pub pixels: Vec<Rgb>,
}

impl View for Bruh {
    type V = Seq<Rgb>;

    open spec fn view(&self) -> Seq<Rgb> {
        self.pixels@
    }
}

impl PartialEq for Bruh {
    fn eq(&self, other: &Bruh) -> (r: bool) {
        if self.pixels.len() != other.pixels.len() {
            return false;
        }
        let mut i: usize = 0;
        while i < self.pixels.len()
            invariant
                self.pixels@.len() == other.pixels@.len(),
                i <= self.pixels@.len(),
                forall|j: int| 0 <= j < i ==> self.pixels@[j] == other.pixels@[j],
            decreases self.pixels@.len() - i,
        {
            if self.pixels[i] != other.pixels[i] {
                return false;
            }
            i = i + 1;
        }
        assert(self.pixels@ =~= other.pixels@);
        true
    }
}

impl vstd::std_specs::cmp::PartialEqSpecImpl for Bruh {
    open spec fn obeys_eq_spec() -> bool {
        true
    }

    open spec fn eq_spec(&self, other: &Bruh) -> bool {
        self@ == other@
    }
}

impl Bruh {
    /// Counts the pixels that differ exactly between two frames of one size.
    pub fn diff(&self, other: &Bruh) -> (r: usize)
        requires
            self@.len() == other@.len(),
        ensures
            r == gross_diff(self@, other@),
    {
        let mut d: usize = 0;
        let mut i: usize = 0;
        while i < self.pixels.len()
            invariant
                self@.len() == other@.len(),
                i <= self@.len(),
                d == gross_diff(self@.take(i as int), other@.take(i as int)),
            decreases self@.len() - i,
        {
            proof {
                lemma_gross_diff_le(self@.take(i as int), other@.take(i as int));
                assert(self@.take(i + 1).drop_last() =~= self@.take(i as int));
                assert(other@.take(i + 1).drop_last() =~= other@.take(i as int));
            }
            if self.pixels[i] != other.pixels[i] {
                d = d + 1;
            }
            i = i + 1;
        }
        assert(self@.take(i as int) =~= self@);
        assert(other@.take(i as int) =~= other@);
        d
    }

    /// The key-frame body: six hex digits per pixel, row-major.
    pub fn encode(&self) -> (r: Vec<u8>)
        ensures
            r@ == pixels_hex(self@),
    {
        let mut b: Vec<u8> = Vec::new();
        let mut i: usize = 0;
        while i < self.pixels.len()
            invariant
                i <= self@.len(),
                b@ == pixels_hex(self@.take(i as int)),
            decreases self@.len() - i,
        {
            proof {
                lemma_pixels_hex_push(self@.take(i as int), self@[i as int]);
                assert(self@.take(i as int).push(self@[i as int]) =~= self@.take(i + 1));
            }
            push_rgb_hex(&mut b, self.pixels[i]);
            i = i + 1;
        }
        assert(self@.take(i as int) =~= self@);
        b
    }

    /// Reads `count` pixels of six hex digits each.
    pub fn decode(c: &mut ByteCursor, count: usize) -> (r: Result<Bruh, FormatError>)
        ensures
            r matches Ok(p) ==> p@.len() == count && old(c).rest() == pixels_hex(p@)
                + final(c).rest(),
            forall|q: Seq<Rgb>|
                q.len() == count && #[trigger] pixels_hex(q).is_prefix_of(old(c).rest())
                    ==> (r matches Ok(p) && p@ == q),
            r matches Err(e) ==> e.in_frame(),
    {
        let ghost start = c.rest();
        let mut pixels: Vec<Rgb> = Vec::new();
        let mut k: usize = 0;
        while k < count
            invariant
                start == old(c).rest(),
                k <= count,
                pixels@.len() == k,
                6 * k <= start.len(),
                c.rest() == start.skip(6 * k),
                start.take(6 * k) == pixels_hex(pixels@),
                forall|q: Seq<Rgb>|
                    q.len() == count && #[trigger] pixels_hex(q).is_prefix_of(start)
                        ==> pixels@ == q.take(k as int),
            decreases count - k,
        {
            let six = c.take_ref(6);
            proof {
                assert forall|q: Seq<Rgb>|
                    q.len() == count && #[trigger] pixels_hex(q).is_prefix_of(start) implies six@
                    == rgb_hex(q[k as int]) by {
                    let head = q.take(k as int + 1);
                    lemma_pixels_hex_concat(head, q.skip(k as int + 1));
                    assert(head + q.skip(k as int + 1) =~= q);
                    lemma_pixels_hex_push(q.take(k as int), q[k as int]);
                    assert(q.take(k as int).push(q[k as int]) =~= head);
                    lemma_pixels_hex_concat(q.take(k as int), seq![]);
                    lemma_pixels_hex_concat(q, seq![]);
                    assert(six@ =~= start.subrange(6 * k, 6 * k + 6));
                    assert(rgb_hex(q[k as int]) =~= pixels_hex(q).subrange(6 * k, 6 * k + 6));
                }
            }
            if six.len() < 6 {
                return Err(FormatError::Truncated);
            }
            match decode_rgb(six) {
                Some(px) => {
                    proof {
                        lemma_pixels_hex_push(pixels@, px);
                        assert(start.take(6 * k + 6) =~= start.take(6 * k) + six@);
                        assert(c.rest() =~= start.skip(6 * k + 6));
                        assert forall|q: Seq<Rgb>|
                            q.len() == count && #[trigger] pixels_hex(q).is_prefix_of(
                                start,
                            ) implies pixels@.push(px) == q.take(k as int + 1) by {
                            assert(q.take(k as int + 1) =~= q.take(k as int).push(q[k as int]));
                        }
                    }
                    pixels.push(px);
                    k = k + 1;
                },
                None => {
                    return Err(FormatError::BadHex);
                },
            }
        }
        proof {
            assert(start =~= start.take(6 * k) + start.skip(6 * k));
            assert forall|q: Seq<Rgb>|
                q.len() == count && #[trigger] pixels_hex(q).is_prefix_of(start) implies pixels@
                == q by {
                assert(q.take(k as int) =~= q);
            }
        }
        Ok(Bruh { pixels })
    }
}

} // verus!
