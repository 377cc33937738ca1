use vstd::prelude::*;

use crate::color::{
    Rgb,
    decode_rgb,
    distance,
    lemma_distance_self,
    lemma_rgb_hex_injective,
    push_rgb_hex,
    pxdiff,
    rgb_hex,
};
use crate::cursor::{
    ByteCursor,
    TakeRef,
    lemma_concat_parts,
    lemma_prefix_after,
    lemma_u32_le_injective,
    u32_le,
    u32_to_le,
    vec_to_u32_ne,
};
use crate::error::FormatError;
use crate::pixels::{Bruh, gross_diff};

verus! {

/// One edit of a delta frame.
#[derive(Clone, Copy, Debug, PartialEq, Eq, Structural)]
pub enum BruhDelta {
    /// The next `n` pixels are those of the base frame.
    Skip(u32),
    /// The next pixel is replaced by this color.
    Overwrite(Rgb),
}

/// A skip run covers at least one pixel.
pub open spec fn op_valid(o: BruhDelta) -> bool {
    match o {
        BruhDelta::Skip(n) => n >= 1,
        BruhDelta::Overwrite(_) => true,
    }
}

/// What one op does to the pixels it covers: `None` keeps the base pixel.
pub open spec fn expand_op(o: BruhDelta) -> Seq<Option<Rgb>> {
    match o {
        BruhDelta::Skip(n) => Seq::new(n as nat, |i: int| None),
        BruhDelta::Overwrite(c) => seq![Some(c)],
    }
}

/// What an op sequence does to the pixels, one entry per pixel it covers.
pub open spec fn expand(ops: Seq<BruhDelta>) -> Seq<Option<Rgb>>
    decreases ops.len(),
{
    if ops.len() == 0 {
        Seq::empty()
    } else {
        expand_op(ops[0]) + expand(ops.drop_first())
    }
}

/// Wire form of one op: `s` and a four-byte count, or `o` and six hex digits.
pub open spec fn op_bytes(o: BruhDelta) -> Seq<u8> {
    match o {
        BruhDelta::Skip(n) => seq![115u8] + u32_le(n),
        BruhDelta::Overwrite(c) => seq![111u8] + rgb_hex(c),
    }
}

/// Wire form of an op sequence: the ops one after another.
pub open spec fn ops_bytes(ops: Seq<BruhDelta>) -> Seq<u8>
    decreases ops.len(),
{
    if ops.len() == 0 {
        Seq::empty()
    } else {
        op_bytes(ops[0]) + ops_bytes(ops.drop_first())
    }
}

/// A delta script for a frame of `total` pixels: valid ops covering exactly
/// `total` pixels.
pub open spec fn ops_cover(ops: Seq<BruhDelta>, total: int) -> bool {
    &&& forall|i: int| 0 <= i < ops.len() ==> op_valid(#[trigger] ops[i])
    &&& expand(ops).len() == total
}

/// The frame that `ops` make of `base`.
pub open spec fn apply_spec(base: Seq<Rgb>, ops: Seq<BruhDelta>) -> Seq<Rgb> {
    Seq::new(
        base.len(),
        |i: int|
            match expand(ops)[i] {
                Some(c) => c,
                None => base[i],
            },
    )
}

pub proof fn lemma_expand_concat(a: Seq<BruhDelta>, b: Seq<BruhDelta>)
    ensures
        expand(a + b) == expand(a) + expand(b),
        ops_bytes(a + b) == ops_bytes(a) + ops_bytes(b),
    decreases a.len(),
{
    if a.len() == 0 {
        assert(a + b =~= b);
        assert(expand(a) + expand(b) =~= expand(b));
        assert(ops_bytes(a) + ops_bytes(b) =~= ops_bytes(b));
    } else {
        lemma_expand_concat(a.drop_first(), b);
        assert((a + b).drop_first() =~= a.drop_first() + b);
        assert(expand(a + b) =~= expand(a) + expand(b));
        assert(ops_bytes(a + b) =~= ops_bytes(a) + ops_bytes(b));
    }
}

pub proof fn lemma_expand_push(a: Seq<BruhDelta>, o: BruhDelta)
    ensures
        expand(a.push(o)) == expand(a) + expand_op(o),
        ops_bytes(a.push(o)) == ops_bytes(a) + op_bytes(o),
{
    let one = seq![o];
    lemma_expand_concat(a, one);
    assert(a + one =~= a.push(o));
    assert(one.drop_first() =~= Seq::<BruhDelta>::empty());
    assert(expand(one.drop_first()) =~= Seq::<Option<Rgb>>::empty());
    assert(ops_bytes(one.drop_first()) =~= Seq::<u8>::empty());
    assert(expand(one) =~= expand_op(o));
    assert(ops_bytes(one) =~= op_bytes(o));
}

/// An op's wire form is never the start of another op's.
proof fn lemma_op_bytes_unique(o: BruhDelta, p: BruhDelta, x: Seq<u8>, y: Seq<u8>)
    requires
        op_bytes(o) + x == op_bytes(p) + y,
    ensures
        o == p,
        x == y,
{
    assert((op_bytes(o) + x)[0] == op_bytes(o)[0]);
    assert((op_bytes(p) + y)[0] == op_bytes(p)[0]);
    match o {
        BruhDelta::Skip(m) => match p {
            BruhDelta::Skip(n) => {
                lemma_concat_parts(op_bytes(o), x, op_bytes(p), y);
                assert(u32_le(m) =~= op_bytes(o).skip(1));
                assert(u32_le(n) =~= op_bytes(p).skip(1));
                lemma_u32_le_injective(m, n);
            },
            BruhDelta::Overwrite(_) => {},
        },
        BruhDelta::Overwrite(c) => match p {
            BruhDelta::Skip(_) => {},
            BruhDelta::Overwrite(d) => {
                lemma_concat_parts(op_bytes(o), x, op_bytes(p), y);
                assert(rgb_hex(c) =~= op_bytes(o).skip(1));
                assert(rgb_hex(d) =~= op_bytes(p).skip(1));
                lemma_rgb_hex_injective(c, d);
            },
        },
    }
}

/// Two delta scripts for frames of one size, each followed by whatever comes
/// next in a stream, that share their wire form are equal, and so is what
/// follows them.
pub proof fn lemma_ops_bytes_unique(
    q: Seq<BruhDelta>,
    r: Seq<BruhDelta>,
    x: Seq<u8>,
    y: Seq<u8>,
    total: int,
)
    requires
        ops_cover(q, total),
        ops_cover(r, total),
        ops_bytes(q) + x == ops_bytes(r) + y,
    ensures
        q == r,
        x == y,
    decreases q.len(),
{
    if q.len() == 0 || r.len() == 0 {
        if q.len() > 0 {
            assert(expand(q).len() >= expand_op(q[0]).len());
            assert(op_valid(q[0]));
        }
        if r.len() > 0 {
            assert(expand(r).len() >= expand_op(r[0]).len());
            assert(op_valid(r[0]));
        }
        assert(q.len() == 0 && r.len() == 0);
        assert(ops_bytes(q) + x =~= x);
        assert(ops_bytes(r) + y =~= y);
        assert(q =~= r);
    } else {
        let tq = ops_bytes(q.drop_first()) + x;
        let tr = ops_bytes(r.drop_first()) + y;
        assert(ops_bytes(q) + x =~= op_bytes(q[0]) + tq);
        assert(ops_bytes(r) + y =~= op_bytes(r[0]) + tr);
        lemma_op_bytes_unique(q[0], r[0], tq, tr);
        let rest = total - expand_op(q[0]).len();
        assert forall|i: int| 0 <= i < q.drop_first().len() implies op_valid(
            #[trigger] q.drop_first()[i],
        ) by {
            assert(op_valid(q[i + 1]));
        }
        assert forall|i: int| 0 <= i < r.drop_first().len() implies op_valid(
            #[trigger] r.drop_first()[i],
        ) by {
            assert(op_valid(r[i + 1]));
        }
        lemma_ops_bytes_unique(q.drop_first(), r.drop_first(), x, y, rest);
        assert(q =~= seq![q[0]] + q.drop_first());
        assert(r =~= seq![r[0]] + r.drop_first());
    }
}

/// Splits an op sequence before its `k`-th op.
proof fn lemma_ops_split(q: Seq<BruhDelta>, k: int)
    requires
        0 <= k < q.len(),
    ensures
        expand(q) == expand(q.take(k)) + expand_op(q[k]) + expand(q.skip(k + 1)),
        ops_bytes(q) == ops_bytes(q.take(k)) + op_bytes(q[k]) + ops_bytes(q.skip(k + 1)),
{
    lemma_expand_push(q.take(k), q[k]);
    assert(q.take(k).push(q[k]) =~= q.take(k + 1));
    lemma_expand_concat(q.take(k + 1), q.skip(k + 1));
    assert(q.take(k + 1) + q.skip(k + 1) =~= q);
}

impl BruhDelta {
    /// Number of pixels the op covers.
    pub open spec fn span(self) -> nat {
        expand_op(self).len()
    }

    /// The ops one after another in their wire form.
    pub fn encode(this: &Vec<Self>, capacity: usize) -> (r: Vec<u8>)
        ensures
            r@ == ops_bytes(this@),
    {
        let mut b: Vec<u8> = Vec::with_capacity(capacity);
        let mut i: usize = 0;
        while i < this.len()
            invariant
                i <= this@.len(),
                b@ == ops_bytes(this@.take(i as int)),
            decreases this@.len() - i,
        {
            proof {
                lemma_expand_push(this@.take(i as int), this@[i as int]);
                assert(this@.take(i as int).push(this@[i as int]) =~= this@.take(i + 1));
            }
            match this[i] {
                BruhDelta::Skip(n) => {
                    b.push(115u8);
                    let le = u32_to_le(n);
                    b.push(le[0]);
                    b.push(le[1]);
                    b.push(le[2]);
                    b.push(le[3]);
                },
                BruhDelta::Overwrite(c) => {
                    b.push(111u8);
                    push_rgb_hex(&mut b, c);
                },
            }
            assert(b@ =~= ops_bytes(this@.take(i as int)) + op_bytes(this@[i as int]));
            i = i + 1;
        }
        assert(this@.take(i as int) =~= this@);
        b
    }

    /// Reads one op and the number of pixels it covers.
    pub fn decode(c: &mut ByteCursor) -> (r: Result<(BruhDelta, u32), FormatError>)
        ensures
            r matches Ok((o, n)) ==> op_valid(o) && n == o.span() && old(c).rest() == op_bytes(o)
                + final(c).rest(),
            forall|o: BruhDelta|
                op_valid(o) && #[trigger] op_bytes(o).is_prefix_of(old(c).rest()) ==> (r matches Ok(
                    (p, _),
                ) && p == o),
            r matches Err(e) ==> e.in_frame(),
    {
        let ghost start = c.rest();
        let tag = match c.next() {
            Some(t) => t,
            None => {
                return Err(FormatError::Truncated);
            },
        };
        if tag == 115u8 {
            let four = c.take_ref(4);
            if four.len() < 4 {
                proof {
                    assert forall|o: BruhDelta| #[trigger] op_bytes(o).is_prefix_of(start) implies false by {
                        assert(op_bytes(o)[0] == start[0]);
                    }
                }
                return Err(FormatError::Truncated);
            }
            let n = vec_to_u32_ne(four.as_slice());
            proof {
                assert forall|o: BruhDelta|
                    op_valid(o) && #[trigger] op_bytes(o).is_prefix_of(start) implies o == BruhDelta::Skip(n) by {
                    assert(op_bytes(o)[0] == start[0]);
                    if let BruhDelta::Skip(m) = o {
                        assert(op_bytes(o).len() == 5);
                        assert(four@ =~= start.subrange(1, 5));
                        assert forall|j: int| 0 <= j < 4 implies u32_le(m)[j] == four@[j] by {
                            assert(op_bytes(o)[j + 1] == start[j + 1]);
                        }
                        assert(u32_le(m) =~= four@);
                    }
                }
            }
            if n == 0 {
                return Err(FormatError::EmptySkip);
            }
            let o = BruhDelta::Skip(n);
            assert(start =~= op_bytes(o) + c.rest());
            Ok((o, n))
        } else if tag == 111u8 {
            let six = c.take_ref(6);
            proof {
                assert forall|o: BruhDelta| #[trigger] op_bytes(o).is_prefix_of(start) implies (o
                    matches BruhDelta::Overwrite(col) && rgb_hex(col) == six@) by {
                    assert(op_bytes(o)[0] == start[0]);
                    if let BruhDelta::Overwrite(col) = o {
                        assert(op_bytes(o).len() == 7);
                        assert(six@ =~= start.subrange(1, 7));
                        assert forall|j: int| 0 <= j < 6 implies rgb_hex(col)[j] == six@[j] by {
                            assert(op_bytes(o)[j + 1] == start[j + 1]);
                        }
                        assert(rgb_hex(col) =~= six@);
                    }
                }
            }
            if six.len() < 6 {
                return Err(FormatError::Truncated);
            }
            match decode_rgb(six) {
                Some(col) => {
                    let o = BruhDelta::Overwrite(col);
                    assert(start =~= op_bytes(o) + c.rest());
                    Ok((o, 1))
                },
                None => Err(FormatError::BadHex),
            }
        } else {
            proof {
                assert forall|o: BruhDelta| #[trigger] op_bytes(o).is_prefix_of(start) implies false by {
                    assert(op_bytes(o)[0] == start[0]);
                }
            }
            Err(FormatError::UnknownTag(tag))
        }
    }
}

/// Reads the ops of a delta frame until they cover `total` pixels.
pub fn decode_ops(c: &mut ByteCursor, total: u64) -> (r: Result<Vec<BruhDelta>, FormatError>)
    ensures
        r matches Ok(ops) ==> ops_cover(ops@, total as int) && old(c).rest() == ops_bytes(ops@)
            + final(c).rest(),
        forall|q: Seq<BruhDelta>|
            ops_cover(q, total as int) && #[trigger] ops_bytes(q).is_prefix_of(old(c).rest()) ==> (r matches Ok(ops) && ops@ == q),
        r matches Err(e) ==> e.in_frame(),
{
    let ghost start = c.rest();
    let mut ops: Vec<BruhDelta> = Vec::new();
    let mut decoded: u64 = 0;
    while decoded < total
        invariant
            start == old(c).rest(),
            decoded <= total,
            decoded == expand(ops@).len(),
            forall|i: int| 0 <= i < ops@.len() ==> op_valid(#[trigger] ops@[i]),
            start == ops_bytes(ops@) + c.rest(),
            forall|q: Seq<BruhDelta>|
                ops_cover(q, total as int) && #[trigger] ops_bytes(q).is_prefix_of(start) ==> ops@.len()
                    <= q.len() && ops@ == q.take(ops@.len() as int),
        decreases total - decoded,
    {
        let ghost k = ops@.len() as int;
        proof {
            assert forall|q: Seq<BruhDelta>|
                ops_cover(q, total as int) && #[trigger] ops_bytes(q).is_prefix_of(start) implies k
                < q.len() && op_bytes(q[k]).is_prefix_of(c.rest()) by {
                if k == q.len() {
                    assert(q.take(k) =~= q);
                } else {
                    lemma_ops_split(q, k);
                    lemma_prefix_after(ops_bytes(ops@), op_bytes(q[k]), ops_bytes(q.skip(k + 1)), c.rest());
                }
            }
        }
        let (o, n) = match BruhDelta::decode(c) {
            Ok(x) => x,
            Err(e) => {
                return Err(e);
            },
        };
        proof {
            assert forall|q: Seq<BruhDelta>|
                ops_cover(q, total as int) && #[trigger] ops_bytes(q).is_prefix_of(start) implies o
                == q[k] && decoded + n <= total by {
                assert(op_valid(q[k]));
                lemma_ops_split(q, k);
            }
        }
        if n as u64 > total - decoded {
            return Err(FormatError::Overrun);
        }
        proof {
            lemma_expand_push(ops@, o);
        }
        ops.push(o);
        decoded = decoded + n as u64;
        proof {
            assert(start =~= ops_bytes(ops@) + c.rest());
            assert forall|q: Seq<BruhDelta>|
                ops_cover(q, total as int) && #[trigger] ops_bytes(q).is_prefix_of(start) implies ops@.len()
                <= q.len() && ops@ == q.take(ops@.len() as int) by {
                assert(q.take(k + 1) =~= q.take(k).push(q[k]));
            }
        }
    }
    proof {
        assert forall|q: Seq<BruhDelta>|
            ops_cover(q, total as int) && #[trigger] ops_bytes(q).is_prefix_of(start) implies ops@
            == q by {
            let k = ops@.len() as int;
            if k < q.len() {
                lemma_ops_split(q, k);
                assert(q.take(k) == ops@);
                assert(expand_op(q[k]).len() >= 1);
            } else {
                assert(q.take(k) =~= q);
            }
        }
    }
    Ok(ops)
}

impl Bruh {
    /// Replays a delta script on this frame. Fails when the ops run out before
    /// every pixel is produced; ops past the last pixel are not read.
    pub fn apply(&self, ops: &Vec<BruhDelta>) -> (r: Result<Bruh, FormatError>)
        ensures
            r is Ok <==> expand(ops@).len() >= self@.len(),
            r matches Ok(p) ==> p@ == apply_spec(self@, ops@),
            r matches Err(e) ==> e == FormatError::OpsExhausted,
    {
        let n = self.pixels.len();
        let mut out: Vec<Rgb> = Vec::new();
        let mut i: usize = 0;
        let mut j: usize = 0;
        while i < n && j < ops.len()
            invariant
                n == self@.len(),
                j <= ops@.len(),
                i <= n,
                i == n || i == expand(ops@.take(j as int)).len(),
                i <= expand(ops@.take(j as int)).len(),
                out@.len() == i,
                forall|k: int|
                    0 <= k < i ==> #[trigger] out@[k] == match expand(ops@.take(j as int))[k] {
                        Some(c) => c,
                        None => self@[k],
                    },
            decreases ops@.len() - j,
        {
            let ghost before = expand(ops@.take(j as int));
            proof {
                lemma_expand_push(ops@.take(j as int), ops@[j as int]);
                assert(ops@.take(j as int).push(ops@[j as int]) =~= ops@.take(j + 1));
            }
            let ghost after = expand(ops@.take(j + 1));
            match ops[j] {
                BruhDelta::Skip(cnt) => {
                    let mut t: u32 = 0;
                    let ghost i0 = i;
                    while t < cnt && i < n
                        invariant
                            n == self@.len(),
                            i0 == before.len(),
                            after == before + expand_op(BruhDelta::Skip(cnt)),
                            t <= cnt,
                            i == i0 + t,
                            i <= n,
                            out@.len() == i,
                            forall|k: int|
                                0 <= k < i ==> #[trigger] out@[k] == match after[k] {
                                    Some(c) => c,
                                    None => self@[k],
                                },
                        decreases cnt - t,
                    {
                        out.push(self.pixels[i]);
                        i = i + 1;
                        t = t + 1;
                    }
                },
                BruhDelta::Overwrite(c) => {
                    out.push(c);
                    i = i + 1;
                },
            }
            j = j + 1;
        }
        proof {
            lemma_expand_concat(ops@.take(j as int), ops@.skip(j as int));
            assert(ops@.take(j as int) + ops@.skip(j as int) =~= ops@);
        }
        if i < n {
            assert(ops@.take(j as int) =~= ops@);
            return Err(FormatError::OpsExhausted);
        }
        let p = Bruh { pixels: out };
        assert(p@ =~= apply_spec(self@, ops@));
        Ok(p)
    }
}

/// A stored frame: every pixel, or the edits from the previous frame.
#[derive(Debug)]
pub enum Frame {
    Key(Bruh),
    Delta(Vec<BruhDelta>),
}

/// The mathematical value of a `Frame`.
pub enum FrameModel {
    Key(Seq<Rgb>),
    Delta(Seq<BruhDelta>),
}

impl View for Frame {
    type V = FrameModel;

    open spec fn view(&self) -> FrameModel {
        match self {
            Frame::Key(p) => FrameModel::Key(p@),
            Frame::Delta(ops) => FrameModel::Delta(ops@),
        }
    }
}

impl PartialEq for Frame {
    fn eq(&self, other: &Frame) -> (r: bool) {
        match self {
            Frame::Key(a) => match other {
                Frame::Key(b) => a == b,
                Frame::Delta(_) => false,
            },
            Frame::Delta(a) => match other {
                Frame::Key(_) => false,
                Frame::Delta(b) => ops_eq(a, b),
            },
        }
    }
}

fn ops_eq(a: &Vec<BruhDelta>, b: &Vec<BruhDelta>) -> (r: bool)
    ensures
        r == (a@ == b@),
{
    if a.len() != b.len() {
        return false;
    }
    let mut i: usize = 0;
    while i < a.len()
        invariant
            a@.len() == b@.len(),
            i <= a@.len(),
            forall|j: int| 0 <= j < i ==> a@[j] == b@[j],
        decreases a@.len() - i,
    {
        let same = match (a[i], b[i]) {
            (BruhDelta::Skip(x), BruhDelta::Skip(y)) => x == y,
            (BruhDelta::Overwrite(x), BruhDelta::Overwrite(y)) => x == y,
            _ => false,
        };
        if !same {
            assert(a@[i as int] != b@[i as int]);
            return false;
        }
        i = i + 1;
    }
    assert(a@ =~= b@);
    true
}

impl vstd::std_specs::cmp::PartialEqSpecImpl for Frame {
    open spec fn obeys_eq_spec() -> bool {
        true
    }

    open spec fn eq_spec(&self, other: &Frame) -> bool {
        self@ == other@
    }
}

impl Frame {
    /// The pixels of a key frame.
    pub fn force_key(&self) -> (r: &Bruh)
        requires
            self is Key,
        ensures
            self@ == FrameModel::Key(r@),
    {
        match self {
            Frame::Key(p) => p,
            Frame::Delta(_) => {
                assert(false);
                unreached()
            },
        }
    }
}

/// Share of exactly differing pixels, in percent, above which a key frame is stored.
pub const KEYFRAME_PERCENT: u32 = 90;

/// Color distance above which a pixel is overwritten rather than skipped.
pub const OVERWRITE_DISTANCE: u8 = 30;

/// The two thresholds of delta building.
#[derive(Clone, Copy, Debug, PartialEq, Eq, Structural)]
pub struct DeltaConfig {
    /// A key frame is stored when more than this percentage of pixels differ.
    pub keyframe_percent: u32,
    /// A pixel whose distance to its base exceeds this is overwritten.
    pub overwrite_distance: u8,
}

/// The reference thresholds.
pub open spec fn reference_config() -> DeltaConfig {
    DeltaConfig { keyframe_percent: KEYFRAME_PERCENT, overwrite_distance: OVERWRITE_DISTANCE }
}

impl Default for DeltaConfig {
    fn default() -> (r: DeltaConfig)
        ensures
            r.keyframe_percent == KEYFRAME_PERCENT,
            r.overwrite_distance == OVERWRITE_DISTANCE,
    {
        DeltaConfig { keyframe_percent: KEYFRAME_PERCENT, overwrite_distance: OVERWRITE_DISTANCE }
    }
}

/// Whether `diff` differing pixels out of `total` call for a key frame:
/// strictly more than the configured share.
pub open spec fn key_due(config: DeltaConfig, diff: int, total: int) -> bool {
    diff * 100 > config.keyframe_percent * total
}

/// The delta ops for the first `n` pixels: a far pixel is overwritten, a near
/// one extends the last skip run unless that run ended on the previous row.
pub open spec fn delta_ops(
    config: DeltaConfig,
    width: nat,
    base: Seq<Rgb>,
    target: Seq<Rgb>,
    n: nat,
) -> Seq<BruhDelta>
    decreases n,
{
    if n == 0 {
        Seq::empty()
    } else {
        let prev = delta_ops(config, width, base, target, (n - 1) as nat);
        let i = n - 1;
        if distance(base[i], target[i]) > config.overwrite_distance {
            prev.push(BruhDelta::Overwrite(target[i]))
        } else if prev.len() > 0 && prev.last() is Skip && i % (width as int) != 0 {
            prev.drop_last().push(BruhDelta::Skip((prev.last()->Skip_0 + 1) as u32))
        } else {
            prev.push(BruhDelta::Skip(1))
        }
    }
}

/// The frame stored for `target` after `base`.
pub open spec fn build_spec(
    config: DeltaConfig,
    width: nat,
    base: Seq<Rgb>,
    target: Seq<Rgb>,
) -> FrameModel {
    if key_due(config, gross_diff(base, target) as int, base.len() as int) {
        FrameModel::Key(target)
    } else {
        FrameModel::Delta(delta_ops(config, width, base, target, base.len()))
    }
}

/// Builds the frame that stores `target` after `base`.
pub fn build(config: &DeltaConfig, width: u32, base: &Bruh, target: &Bruh) -> (r: Frame)
    requires
        base@.len() == target@.len(),
        width >= 1,
    ensures
        r@ == build_spec(*config, width as nat, base@, target@),
{
    let total = base.pixels.len();
    let diff = base.diff(target);
    assert((diff as u128) * 100 < 0x1_0000_0000_0000_0000_0000 && (config.keyframe_percent as u128)
        * (total as u128) < 0x1_0000_0000_0000_0000_0000_0000) by (nonlinear_arith)
        requires
            diff < 0x1_0000_0000_0000_0000,
            total < 0x1_0000_0000_0000_0000,
            config.keyframe_percent < 0x1_0000_0000,
    ;
    if (diff as u128) * 100 > (config.keyframe_percent as u128) * (total as u128) {
        let pixels = target.pixels.clone();
        assert(pixels@ =~= target@);
        return Frame::Key(Bruh { pixels });
    }
    let w = width as usize;
    let mut ops: Vec<BruhDelta> = Vec::new();
    let mut i: usize = 0;
    while i < total
        invariant
            total == base@.len(),
            total == target@.len(),
            w == width,
            w >= 1,
            i <= total,
            ops@ == delta_ops(*config, width as nat, base@, target@, i as nat),
            ops@.len() > 0 && i > 0 ==> (ops@.last() matches BruhDelta::Skip(k) ==> k <= (i - 1) % (
            w as int) + 1),
        decreases total - i,
    {
        if pxdiff(&base.pixels[i], &target.pixels[i]) > config.overwrite_distance {
            ops.push(BruhDelta::Overwrite(target.pixels[i]));
        } else {
            let len = ops.len();
            let mut extended = false;
            if len > 0 && i % w != 0 {
                if let BruhDelta::Skip(k) = ops[len - 1] {
                    assert((i - 1) as int % (w as int) + 1 == (i as int) % (w as int)) by (nonlinear_arith)
                        requires
                            (i as int) % (w as int) != 0,
                            i >= 1,
                            w >= 1,
                    ;
                    assert((i as int) % (w as int) < w);
                    ops.set(len - 1, BruhDelta::Skip(k + 1));
                    extended = true;
                }
            }
            if !extended {
                ops.push(BruhDelta::Skip(1));
            }
        }
        proof {
            let prev = delta_ops(*config, width as nat, base@, target@, i as nat);
            assert(delta_ops(*config, width as nat, base@, target@, (i + 1) as nat) == {
                if distance(base@[i as int], target@[i as int]) > config.overwrite_distance {
                    prev.push(BruhDelta::Overwrite(target@[i as int]))
                } else if prev.len() > 0 && prev.last() is Skip && (i as int) % (width as int) != 0 {
                    prev.drop_last().push(BruhDelta::Skip((prev.last()->Skip_0 + 1) as u32))
                } else {
                    prev.push(BruhDelta::Skip(1))
                }
            });
            assert(ops@ =~= delta_ops(*config, width as nat, base@, target@, (i + 1) as nat));
            assert((i as int) % (w as int) < w);
        }
        i = i + 1;
    }
    Frame::Delta(ops)
}

/// What the ops built for the first `n` pixels do: they cover exactly `n`
/// pixels, overwrite each far pixel with its target and keep each near one.
pub proof fn lemma_delta_ops(
    config: DeltaConfig,
    width: nat,
    base: Seq<Rgb>,
    target: Seq<Rgb>,
    n: nat,
)
    requires
        1 <= width <= u32::MAX,
        n <= base.len(),
        n <= target.len(),
    ensures
        ops_cover(delta_ops(config, width, base, target, n), n as int),
        forall|i: int|
            0 <= i < n ==> #[trigger] expand(delta_ops(config, width, base, target, n))[i] == if distance(
                base[i],
                target[i],
            ) > config.overwrite_distance {
                Some(target[i])
            } else {
                None
            },
        n > 0 ==> (delta_ops(config, width, base, target, n).last() matches BruhDelta::Skip(k) ==> k
            <= (n - 1) % (width as int) + 1),
    decreases n,
{
    if n > 0 {
        let prev = delta_ops(config, width, base, target, (n - 1) as nat);
        let cur = delta_ops(config, width, base, target, n);
        let i = n - 1;
        lemma_delta_ops(config, width, base, target, (n - 1) as nat);
        if distance(base[i], target[i]) > config.overwrite_distance {
            lemma_expand_push(prev, BruhDelta::Overwrite(target[i]));
        } else if prev.len() > 0 && prev.last() is Skip && i % (width as int) != 0 {
            let k = prev.last()->Skip_0;
            assert((i - 1) % (width as int) + 1 == i % (width as int)) by (nonlinear_arith)
                requires
                    i % (width as int) != 0,
                    i >= 1,
                    width >= 1,
            ;
            assert(i % (width as int) < width);
            assert(prev.drop_last().push(prev.last()) =~= prev);
            lemma_expand_push(prev.drop_last(), prev.last());
            lemma_expand_push(prev.drop_last(), BruhDelta::Skip((k + 1) as u32));
            assert(expand(cur) =~= expand(prev).push(None));
            assert forall|j: int| 0 <= j < cur.len() implies op_valid(#[trigger] cur[j]) by {
                if j < cur.len() - 1 {
                    assert(cur[j] == prev[j]);
                }
            }
        } else {
            lemma_expand_push(prev, BruhDelta::Skip(1));
            assert(expand_op(BruhDelta::Skip(1)) =~= seq![None]);
            assert(i % (width as int) < width);
        }
        assert forall|j: int| 0 <= j < n implies #[trigger] expand(cur)[j] == if distance(
            base[j],
            target[j],
        ) > config.overwrite_distance {
            Some(target[j])
        } else {
            None
        } by {
            if j < i {
                assert(expand(cur)[j] == expand(prev)[j]);
            }
        }
    }
}

/// A delta frame built from `base` toward `target` replays on `base` to
/// `target` itself, wherever each pixel that changed moved farther than the
/// overwrite distance (a nearer change is skipped, so the base pixel stays).
pub proof fn lemma_reconstruction_closure(
    config: DeltaConfig,
    width: u32,
    base: Seq<Rgb>,
    target: Seq<Rgb>,
)
    requires
        width >= 1,
        base.len() == target.len(),
        build_spec(config, width as nat, base, target) is Delta,
        forall|i: int|
            0 <= i < base.len() ==> base[i] == target[i] || distance(#[trigger] base[i], target[i])
                > config.overwrite_distance,
    ensures
        apply_spec(base, build_spec(config, width as nat, base, target)->Delta_0) == target,
{
    let ops = delta_ops(config, width as nat, base, target, base.len());
    lemma_delta_ops(config, width as nat, base, target, base.len());
    assert forall|i: int| 0 <= i < base.len() implies apply_spec(base, ops)[i] == target[i] by {
        assert(expand(ops)[i] == if distance(base[i], target[i]) > config.overwrite_distance {
            Some(target[i])
        } else {
            None
        });
        if base[i] == target[i] {
            lemma_distance_self(base[i]);
        }
    }
    assert(apply_spec(base, ops) =~= target);
}

/// The key-frame threshold is exclusive: a share of exactly differing pixels
/// at or below the configured percentage gives a delta frame, any larger share
/// a key frame holding the target.
pub proof fn lemma_keyframe_boundary(
    config: DeltaConfig,
    width: nat,
    base: Seq<Rgb>,
    target: Seq<Rgb>,
)
    ensures
        gross_diff(base, target) * 100 <= config.keyframe_percent * base.len() ==> build_spec(
            config,
            width,
            base,
            target,
        ) is Delta,
        gross_diff(base, target) * 100 > config.keyframe_percent * base.len() ==> build_spec(
            config,
            width,
            base,
            target,
        ) == FrameModel::Key(target),
{
}

/// A near pixel in the first column of a row starts a skip run of its own:
/// skip runs never reach across a row seam.
pub proof fn lemma_row_seam(config: DeltaConfig, width: nat, base: Seq<Rgb>, target: Seq<Rgb>, i: nat)
    requires
        width >= 1,
        i < base.len(),
        i < target.len(),
        i % width == 0,
        distance(base[i as int], target[i as int]) <= config.overwrite_distance,
    ensures
        delta_ops(config, width, base, target, i + 1) == delta_ops(config, width, base, target, i).push(
            BruhDelta::Skip(1),
        ),
{
}

} // verus!
