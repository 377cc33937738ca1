use vstd::prelude::*;

use crate::color::Rgb;
use crate::cursor::{
    ByteCursor,
    TakeRef,
    lemma_concat_parts,
    lemma_prefix_after,
    lemma_u32_le_injective,
    u32_le,
    u32_to_le,
    vec_to_u32_ne,
};
use crate::error::FormatError;
use crate::frame::{
    BruhDelta,
    DeltaConfig,
    Frame,
    FrameModel,
    apply_spec,
    build,
    build_spec,
    decode_ops,
    lemma_delta_ops,
    lemma_ops_bytes_unique,
    ops_bytes,
    ops_cover,
    reference_config,
};
use crate::pixels::{Bruh, lemma_pixels_hex_concat, lemma_pixels_hex_unique, pixels_hex};

verus! {

/// Whether a frame fits a reel of `total` pixels per frame.
pub open spec fn frame_valid(f: FrameModel, total: int) -> bool {
    match f {
        FrameModel::Key(p) => p.len() == total,
        FrameModel::Delta(ops) => ops_cover(ops, total),
    }
}

/// Wire form of a frame: `k` and the pixels' hex digits, or `t` and the ops.
pub open spec fn frame_bytes(f: FrameModel) -> Seq<u8> {
    match f {
        FrameModel::Key(p) => seq![107u8] + pixels_hex(p),
        FrameModel::Delta(ops) => seq![116u8] + ops_bytes(ops),
    }
}

/// Wire form of a frame sequence: the frames one after another.
pub open spec fn frames_bytes(fs: Seq<FrameModel>) -> Seq<u8>
    decreases fs.len(),
{
    if fs.len() == 0 {
        Seq::empty()
    } else {
        frame_bytes(fs[0]) + frames_bytes(fs.drop_first())
    }
}

/// The mathematical value of a reel.
pub struct ReelModel {
    pub width: u32,
    pub height: u32,
    pub frames: Seq<FrameModel>,
}

impl ReelModel {
    pub open spec fn total(self) -> int {
        self.width * self.height
    }

    /// A non-empty reel of non-empty frames that starts with a key frame, each
    /// frame fitting the reel's size.
    pub open spec fn wf(self) -> bool {
        &&& self.width >= 1
        &&& self.height >= 1
        &&& self.frames.len() >= 1
        &&& self.frames[0] is Key
        &&& forall|i: int| 0 <= i < self.frames.len() ==> frame_valid(#[trigger] self.frames[i], self.total())
    }
}

/// Wire form of a reel: width and height as four bytes each, least
/// significant first, then the frames.
pub open spec fn reel_bytes(r: ReelModel) -> Seq<u8> {
    u32_le(r.width) + u32_le(r.height) + frames_bytes(r.frames)
}

/// The pixels shown at frame `j`: a key frame's own, or the delta replayed on
/// the pixels shown at the frame before.
pub open spec fn recon(fs: Seq<FrameModel>, j: int) -> Seq<Rgb>
    decreases j,
{
    match fs[j] {
        FrameModel::Key(p) => p,
        FrameModel::Delta(ops) => if j > 0 {
            apply_spec(recon(fs, j - 1), ops)
        } else {
            Seq::empty()
        },
    }
}

pub open spec fn frame_models(fs: Seq<Frame>) -> Seq<FrameModel> {
    fs.map_values(|f: Frame| f@)
}

pub proof fn lemma_frames_bytes_concat(a: Seq<FrameModel>, b: Seq<FrameModel>)
    ensures
        frames_bytes(a + b) == frames_bytes(a) + frames_bytes(b),
    decreases a.len(),
{
    if a.len() == 0 {
        assert(a + b =~= b);
        assert(frames_bytes(a) + frames_bytes(b) =~= frames_bytes(b));
    } else {
        lemma_frames_bytes_concat(a.drop_first(), b);
        assert((a + b).drop_first() =~= a.drop_first() + b);
        assert(frames_bytes(a + b) =~= frames_bytes(a) + frames_bytes(b));
    }
}

proof fn lemma_frames_bytes_push(a: Seq<FrameModel>, f: FrameModel)
    ensures
        frames_bytes(a.push(f)) == frames_bytes(a) + frame_bytes(f),
{
    let one = seq![f];
    lemma_frames_bytes_concat(a, one);
    assert(a + one =~= a.push(f));
    assert(one.drop_first() =~= Seq::<FrameModel>::empty());
    assert(frames_bytes(one.drop_first()) =~= Seq::<u8>::empty());
    assert(frames_bytes(one) =~= frame_bytes(f));
}

proof fn lemma_frames_split(q: Seq<FrameModel>, k: int)
    requires
        0 <= k < q.len(),
    ensures
        frames_bytes(q) == frames_bytes(q.take(k)) + frame_bytes(q[k]) + frames_bytes(q.skip(k + 1)),
{
    lemma_frames_bytes_push(q.take(k), q[k]);
    assert(q.take(k).push(q[k]) =~= q.take(k + 1));
    lemma_frames_bytes_concat(q.take(k + 1), q.skip(k + 1));
    assert(q.take(k + 1) + q.skip(k + 1) =~= q);
}

/// A frame's wire form is never the start of another valid frame's.
proof fn lemma_frame_bytes_unique(f: FrameModel, g: FrameModel, x: Seq<u8>, y: Seq<u8>, total: int)
    requires
        frame_valid(f, total),
        frame_valid(g, total),
        frame_bytes(f) + x == frame_bytes(g) + y,
    ensures
        f == g,
        x == y,
{
    assert((frame_bytes(f) + x)[0] == frame_bytes(f)[0]);
    assert((frame_bytes(g) + y)[0] == frame_bytes(g)[0]);
    match f {
        FrameModel::Key(p) => match g {
            FrameModel::Key(q) => {
                assert(frame_bytes(f) + x =~= seq![107u8] + (pixels_hex(p) + x));
                assert(frame_bytes(g) + y =~= seq![107u8] + (pixels_hex(q) + y));
                lemma_concat_parts(seq![107u8], pixels_hex(p) + x, seq![107u8], pixels_hex(q) + y);
                lemma_pixels_hex_unique(p, q, x, y);
            },
            FrameModel::Delta(_) => {},
        },
        FrameModel::Delta(p) => match g {
            FrameModel::Key(_) => {},
            FrameModel::Delta(q) => {
                assert(frame_bytes(f) + x =~= seq![116u8] + (ops_bytes(p) + x));
                assert(frame_bytes(g) + y =~= seq![116u8] + (ops_bytes(q) + y));
                lemma_concat_parts(seq![116u8], ops_bytes(p) + x, seq![116u8], ops_bytes(q) + y);
                lemma_ops_bytes_unique(p, q, x, y, total);
            },
        },
    }
}

/// Frame sequences of one frame size with one wire form are equal.
proof fn lemma_frames_bytes_unique(fs: Seq<FrameModel>, gs: Seq<FrameModel>, total: int)
    requires
        forall|i: int| 0 <= i < fs.len() ==> frame_valid(#[trigger] fs[i], total),
        forall|i: int| 0 <= i < gs.len() ==> frame_valid(#[trigger] gs[i], total),
        frames_bytes(fs) == frames_bytes(gs),
    ensures
        fs == gs,
    decreases fs.len(),
{
    if fs.len() == 0 || gs.len() == 0 {
        if fs.len() > 0 {
            assert(frames_bytes(fs).len() >= 1);
        }
        if gs.len() > 0 {
            assert(frames_bytes(gs).len() >= 1);
        }
        assert(fs =~= gs);
    } else {
        assert(frame_valid(fs[0], total));
        assert(frame_valid(gs[0], total));
        lemma_frame_bytes_unique(
            fs[0],
            gs[0],
            frames_bytes(fs.drop_first()),
            frames_bytes(gs.drop_first()),
            total,
        );
        assert forall|i: int| 0 <= i < fs.drop_first().len() implies frame_valid(
            #[trigger] fs.drop_first()[i],
            total,
        ) by {
            assert(frame_valid(fs[i + 1], total));
        }
        assert forall|i: int| 0 <= i < gs.drop_first().len() implies frame_valid(
            #[trigger] gs.drop_first()[i],
            total,
        ) by {
            assert(frame_valid(gs[i + 1], total));
        }
        lemma_frames_bytes_unique(fs.drop_first(), gs.drop_first(), total);
        assert(fs =~= seq![fs[0]] + fs.drop_first());
        assert(gs =~= seq![gs[0]] + gs.drop_first());
    }
}

/// Round trip: the wire form of a well-formed reel is the wire form of no
/// other well-formed reel, so decoding what `Bruhs::encode` wrote gives back
/// the reel that was encoded.
pub proof fn lemma_round_trip(reel: ReelModel)
    requires
        reel.wf(),
    ensures
        forall|m: ReelModel| m.wf() && #[trigger] reel_bytes(m) == reel_bytes(reel) ==> m == reel,
{
    assert forall|m: ReelModel| m.wf() && #[trigger] reel_bytes(m) == reel_bytes(reel) implies m
        == reel by {
        let hm = u32_le(m.width) + u32_le(m.height);
        let hr = u32_le(reel.width) + u32_le(reel.height);
        lemma_concat_parts(hm, frames_bytes(m.frames), hr, frames_bytes(reel.frames));
        lemma_concat_parts(u32_le(m.width), u32_le(m.height), u32_le(reel.width), u32_le(reel.height));
        lemma_u32_le_injective(m.width, reel.width);
        lemma_u32_le_injective(m.height, reel.height);
        lemma_frames_bytes_unique(m.frames, reel.frames, reel.total());
    }
}

/// `recon` at `j` reads only the frames up to `j`.
proof fn lemma_recon_prefix(fs: Seq<FrameModel>, gs: Seq<FrameModel>, j: int)
    requires
        0 <= j < fs.len(),
        j < gs.len(),
        forall|i: int| 0 <= i <= j ==> fs[i] == gs[i],
    ensures
        recon(fs, j) == recon(gs, j),
    decreases j,
{
    if j > 0 {
        lemma_recon_prefix(fs, gs, j - 1);
    }
}

/// In a well-formed reel every shown frame has the reel's size.
proof fn lemma_recon_len(m: ReelModel, j: int)
    requires
        m.wf(),
        0 <= j < m.frames.len(),
    ensures
        recon(m.frames, j).len() == m.total(),
    decreases j,
{
    assert(frame_valid(m.frames[j], m.total()));
    if j > 0 {
        lemma_recon_len(m, j - 1);
    }
}

/// Appends the wire form of one frame.
fn encode_frame(f: &Frame, out: &mut Vec<u8>)
    ensures
        final(out)@ == old(out)@ + frame_bytes(f@),
{
    match f {
        Frame::Key(p) => {
            out.push(107u8);
            let mut body = p.encode();
            out.append(&mut body);
        },
        Frame::Delta(ops) => {
            out.push(116u8);
            let mut body = BruhDelta::encode(ops, ops.len());
            out.append(&mut body);
        },
    }
    assert(out@ =~= old(out)@ + frame_bytes(f@));
}

/// Reads one frame of a reel of `total` pixels per frame.
fn decode_frame(c: &mut ByteCursor, total: u64) -> (r: Result<Frame, FormatError>)
    ensures
        r matches Ok(f) ==> frame_valid(f@, total as int) && old(c).rest() == frame_bytes(f@)
            + final(c).rest(),
        forall|g: FrameModel|
            frame_valid(g, total as int) && #[trigger] frame_bytes(g).is_prefix_of(old(c).rest()) ==> (r matches Ok(f) && f@ == g),
        r matches Err(e) ==> e.in_frame(),
{
    let ghost start = c.rest();
    let tag = match c.next() {
        Some(t) => t,
        None => {
            return Err(FormatError::Truncated);
        },
    };
    let ghost mid = c.rest();
    assert(start =~= seq![tag] + mid);
    proof {
        assert forall|g: FrameModel| #[trigger] frame_bytes(g).is_prefix_of(start) implies frame_bytes(g)[0] == tag && frame_bytes(g).skip(1).is_prefix_of(c.rest()) by {
            assert(frame_bytes(g)[0] == start[0]);
            lemma_prefix_after(seq![tag], frame_bytes(g).skip(1), Seq::empty(), c.rest());
            assert(seq![tag] + frame_bytes(g).skip(1) + Seq::<u8>::empty() =~= frame_bytes(g));
            assert(seq![tag] + c.rest() =~= start);
        }
    }
    if tag == 107u8 {
        if total > (c.remaining() / 6) as u64 {
            proof {
                assert forall|g: FrameModel|
                    frame_valid(g, total as int) && #[trigger] frame_bytes(g).is_prefix_of(start) implies false by {
                    if let FrameModel::Key(p) = g {
                        lemma_pixels_hex_concat(p, Seq::empty());
                    }
                }
            }
            return Err(FormatError::Truncated);
        }
        proof {
            assert forall|g: FrameModel|
                frame_valid(g, total as int) && #[trigger] frame_bytes(g).is_prefix_of(start) implies (g matches FrameModel::Key(p) && pixels_hex(p).is_prefix_of(c.rest())) by {
                if let FrameModel::Key(p) = g {
                    assert(frame_bytes(g).skip(1) =~= pixels_hex(p));
                }
            }
        }
        let p = Bruh::decode(c, total as usize);
        match p {
            Ok(p) => {
                assert(start =~= seq![tag] + pixels_hex(p@) + c.rest());
                assert(start =~= frame_bytes(FrameModel::Key(p@)) + c.rest());
                Ok(Frame::Key(p))
            },
            Err(e) => Err(e),
        }
    } else if tag == 116u8 {
        proof {
            assert forall|g: FrameModel|
                frame_valid(g, total as int) && #[trigger] frame_bytes(g).is_prefix_of(start) implies (g matches FrameModel::Delta(q) && ops_bytes(q).is_prefix_of(c.rest())) by {
                if let FrameModel::Delta(q) = g {
                    assert(frame_bytes(g).skip(1) =~= ops_bytes(q));
                }
            }
        }
        match decode_ops(c, total) {
            Ok(ops) => {
                assert(start =~= seq![tag] + ops_bytes(ops@) + c.rest());
                assert(start =~= frame_bytes(FrameModel::Delta(ops@)) + c.rest());
                Ok(Frame::Delta(ops))
            },
            Err(e) => Err(e),
        }
    } else {
        Err(FormatError::UnknownTag(tag))
    }
}

/// An animation as its frame sequence.
#[derive(Debug)]
pub struct Bruhs {
    pub frames: Vec<Frame>,
    pub width: u32,
    pub height: u32,
}

impl View for Bruhs {
    type V = ReelModel;

    open spec fn view(&self) -> ReelModel {
        ReelModel { width: self.width, height: self.height, frames: frame_models(self.frames@) }
    }
}

impl Bruhs {
    /// The reel's wire form: header, then every frame.
    pub fn encode(&self) -> (r: Vec<u8>)
        ensures
            r@ == reel_bytes(self@),
    {
        let mut b: Vec<u8> = Vec::new();
        let w = u32_to_le(self.width);
        let h = u32_to_le(self.height);
        b.push(w[0]);
        b.push(w[1]);
        b.push(w[2]);
        b.push(w[3]);
        b.push(h[0]);
        b.push(h[1]);
        b.push(h[2]);
        b.push(h[3]);
        let ghost header = b@;
        assert(header =~= u32_le(self.width) + u32_le(self.height));
        let mut i: usize = 0;
        while i < self.frames.len()
            invariant
                i <= self.frames@.len(),
                header == u32_le(self.width) + u32_le(self.height),
                b@ == header + frames_bytes(frame_models(self.frames@).take(i as int)),
            decreases self.frames@.len() - i,
        {
            proof {
                let fm = frame_models(self.frames@);
                lemma_frames_bytes_push(fm.take(i as int), fm[i as int]);
                assert(fm.take(i as int).push(fm[i as int]) =~= fm.take(i + 1));
            }
            encode_frame(&self.frames[i], &mut b);
            i = i + 1;
        }
        assert(frame_models(self.frames@).take(i as int) =~= frame_models(self.frames@));
        b
    }

    /// Reads a reel. Succeeds exactly on the wire forms of well-formed reels,
    /// and then gives back that reel.
    pub fn decode(b: Vec<u8>) -> (r: Result<Bruhs, FormatError>)
        ensures
            r matches Ok(x) ==> x@.wf() && reel_bytes(x@) == b@,
            forall|m: ReelModel| m.wf() && #[trigger] reel_bytes(m) == b@ ==> (r matches Ok(x) && x@ == m),
            b@.len() < 8 ==> r == Err::<Bruhs, FormatError>(FormatError::Truncated),
            r == Err::<Bruhs, FormatError>(FormatError::ZeroSize) <==> b@.len() >= 8 && (b@.take(4)
                == u32_le(0) || b@.subrange(4, 8) == u32_le(0)),
            r == Err::<Bruhs, FormatError>(FormatError::NoFrames) <==> b@.len() == 8 && b@.take(4)
                != u32_le(0) && b@.subrange(4, 8) != u32_le(0),
    {
        let ghost all = b@;
        proof {
            assert forall|m: ReelModel| #[trigger] reel_bytes(m) == all implies all.len() >= 8 by {}
        }
        let mut c = ByteCursor::new(b);
        let wb = c.take_ref(4);
        let hb = c.take_ref(4);
        if hb.len() < 4 {
            return Err(FormatError::Truncated);
        }
        let width = vec_to_u32_ne(wb.as_slice());
        let height = vec_to_u32_ne(hb.as_slice());
        let ghost start = c.rest();
        assert(all =~= wb@ + hb@ + start);
        proof {
            assert forall|m: ReelModel| #[trigger] reel_bytes(m) == all implies m.width == width
                && m.height == height && frames_bytes(m.frames) == start by {
                assert(u32_le(m.width) =~= all.take(4));
                assert(wb@ =~= all.take(4));
                assert(u32_le(m.height) =~= all.subrange(4, 8));
                assert(hb@ =~= all.subrange(4, 8));
                assert(start =~= all.skip(8));
                assert(frames_bytes(m.frames) =~= all.skip(8));
            }
        }
        proof {
            assert(wb@ =~= all.take(4));
            assert(hb@ =~= all.subrange(4, 8));
            assert(u32_le(width) == wb@);
            if width != 0 {
                assert(wb@ != u32_le(0)) by {
                    if wb@ == u32_le(0) {
                        lemma_u32_le_injective(width, 0);
                    }
                }
            }
            if height != 0 {
                assert(hb@ != u32_le(0)) by {
                    if hb@ == u32_le(0) {
                        lemma_u32_le_injective(height, 0);
                    }
                }
            }
        }
        if width == 0 || height == 0 {
            return Err(FormatError::ZeroSize);
        }
        assert((width as u64) * (height as u64) <= 0xffff_ffff_ffff_ffff) by (nonlinear_arith)
            requires
                width <= 0xffff_ffff,
                height <= 0xffff_ffff,
        ;
        let total: u64 = width as u64 * height as u64;
        let mut frames: Vec<Frame> = Vec::new();
        while c.remaining() > 0
            invariant
                all == b@,
                all.len() >= 8,
                all.take(4) != u32_le(0),
                all.subrange(4, 8) != u32_le(0),
                all.len() == 8 + start.len(),
                frames@.len() == 0 ==> c.rest() == start,
                frames@.len() > 0 ==> start.len() > 0,
                width >= 1,
                height >= 1,
                total == width * height,
                start == frames_bytes(frame_models(frames@)) + c.rest(),
                forall|i: int|
                    0 <= i < frames@.len() ==> frame_valid(#[trigger] frame_models(frames@)[i], total as int),
                frames@.len() > 0 ==> frame_models(frames@)[0] is Key,
                forall|m: ReelModel|
                    m.wf() && #[trigger] reel_bytes(m) == all ==> m.width == width && m.height == height
                        && frames_bytes(m.frames) == start && frames@.len() <= m.frames.len()
                        && frame_models(frames@) == m.frames.take(frames@.len() as int),
            decreases c.rest().len(),
        {
            let ghost k = frames@.len() as int;
            let ghost fm = frame_models(frames@);
            proof {
                assert forall|m: ReelModel| m.wf() && #[trigger] reel_bytes(m) == all implies k
                    < m.frames.len() && frame_bytes(m.frames[k]).is_prefix_of(c.rest()) by {
                    if k == m.frames.len() {
                        assert(m.frames.take(k) =~= m.frames);
                        assert(c.rest() =~= Seq::<u8>::empty());
                    } else {
                        lemma_frames_split(m.frames, k);
                        lemma_prefix_after(
                            frames_bytes(fm),
                            frame_bytes(m.frames[k]),
                            frames_bytes(m.frames.skip(k + 1)),
                            c.rest(),
                        );
                    }
                }
            }
            let f = match decode_frame(&mut c, total) {
                Ok(f) => f,
                Err(e) => {
                    proof {
                        assert forall|m: ReelModel| m.wf() && #[trigger] reel_bytes(m) == all implies false by {
                            assert(frame_valid(m.frames[k], m.total()));
                            assert(m.total() == total);
                        }
                    }
                    return Err(e);
                },
            };
            proof {
                assert forall|m: ReelModel| m.wf() && #[trigger] reel_bytes(m) == all implies f@
                    == m.frames[k] by {
                    assert(frame_valid(m.frames[k], m.total()));
                }
            }
            if frames.len() == 0 {
                if let Frame::Delta(_) = f {
                    return Err(FormatError::DeltaFirst);
                }
            }
            proof {
                lemma_frames_bytes_push(fm, f@);
                assert(frame_models(frames@.push(f)) =~= fm.push(f@));
                assert(frame_bytes(f@).len() >= 1);
            }
            frames.push(f);
            proof {
                assert forall|m: ReelModel| m.wf() && #[trigger] reel_bytes(m) == all implies frame_models(frames@)
                    == m.frames.take(frames@.len() as int) by {
                    assert(m.frames.take(k + 1) =~= m.frames.take(k).push(m.frames[k]));
                }
            }
        }
        let ghost fm = frame_models(frames@);
        proof {
            assert(start =~= frames_bytes(fm));
            assert forall|m: ReelModel| m.wf() && #[trigger] reel_bytes(m) == all implies fm == m.frames by {
                let k = fm.len() as int;
                if k < m.frames.len() {
                    lemma_frames_split(m.frames, k);
                    assert(m.frames.take(k) == fm);
                } else {
                    assert(m.frames.take(k) =~= m.frames);
                }
            }
        }
        if frames.len() == 0 {
            return Err(FormatError::NoFrames);
        }
        let x = Bruhs { frames, width, height };
        assert(all =~= reel_bytes(x@));
        Ok(x)
    }
}

/// A reel whose frames are all key frames of the reel's size: what delta
/// building starts from.
pub open spec fn keys_only(m: ReelModel) -> bool {
    &&& m.width >= 1
    &&& m.height >= 1
    &&& m.frames.len() >= 1
    &&& forall|i: int|
        0 <= i < m.frames.len() ==> (#[trigger] m.frames[i] matches FrameModel::Key(p) && p.len()
            == m.total())
}

/// `after` is `before` with each frame but the first stored against the
/// frame shown before it.
pub open spec fn deltified(config: DeltaConfig, before: ReelModel, after: ReelModel) -> bool {
    &&& after.width == before.width
    &&& after.height == before.height
    &&& after.frames.len() == before.frames.len()
    &&& after.frames[0] == before.frames[0]
    &&& forall|i: int|
        1 <= i < after.frames.len() ==> #[trigger] after.frames[i] == build_spec(
            config,
            after.width as nat,
            recon(after.frames, i - 1),
            before.frames[i]->Key_0,
        )
}

impl Bruhs {
    /// Stores every frame after the first against the frame shown before it,
    /// with the reference thresholds.
    pub fn deltify(&mut self)
        requires
            keys_only(old(self)@),
        ensures
            deltified(reference_config(), old(self)@, final(self)@),
            final(self)@.wf(),
    {
        let config = DeltaConfig::default();
        self.deltify_with(&config);
    }

    /// Stores every frame after the first against the frame shown before it.
    #[verifier::rlimit(60)]
    pub fn deltify_with(&mut self, config: &DeltaConfig)
        requires
            keys_only(old(self)@),
        ensures
            deltified(*config, old(self)@, final(self)@),
            final(self)@.wf(),
    {
        let ghost orig = self@;
        let ghost total = orig.total();
        let n = self.frames.len();
        assert(self@.frames[0] matches FrameModel::Key(_));
        let mut key = Bruh { pixels: self.frames[0].force_key().pixels.clone() };
        assert(key@ =~= recon(self@.frames, 0));
        let mut i: usize = 1;
        while i < n
            invariant
                keys_only(orig),
                total == orig.total(),
                n == self.frames@.len(),
                n == orig.frames.len(),
                1 <= i <= n,
                self.width == orig.width,
                self.height == orig.height,
                self@.frames[0] == orig.frames[0],
                forall|j: int| i <= j < n ==> #[trigger] self@.frames[j] == orig.frames[j],
                forall|j: int|
                    1 <= j < i ==> #[trigger] self@.frames[j] == build_spec(
                        *config,
                        self.width as nat,
                        recon(self@.frames, j - 1),
                        orig.frames[j]->Key_0,
                    ),
                forall|j: int| 0 <= j < i ==> frame_valid(#[trigger] self@.frames[j], total),
                key@ == recon(self@.frames, i - 1),
                key@.len() == total,
            decreases n - i,
        {
            let ghost before = self@.frames;
            assert(before[i as int] == orig.frames[i as int]);
            assert(orig.frames[i as int] matches FrameModel::Key(_));
            let target = Bruh { pixels: self.frames[i].force_key().pixels.clone() };
            assert(target@ =~= orig.frames[i as int]->Key_0);
            let f = build(config, self.width, &key, &target);
            proof {
                lemma_delta_ops(*config, self.width as nat, key@, target@, key@.len());
            }
            let next = match &f {
                Frame::Key(p) => Bruh { pixels: p.pixels.clone() },
                Frame::Delta(ops) => match key.apply(ops) {
                    Ok(p) => p,
                    Err(_) => {
                        assert(false);
                        return;
                    },
                },
            };
            self.frames.set(i, f);
            proof {
                let after = self@.frames;
                assert(after =~= before.update(i as int, f@));
                assert forall|j: int| 0 <= j < i implies recon(after, j) == recon(before, j) by {
                    lemma_recon_prefix(after, before, j);
                }
                assert(next@ =~= recon(after, i as int));
                assert forall|j: int|
                    1 <= j < i + 1 implies #[trigger] after[j] == build_spec(
                        *config,
                        self.width as nat,
                        recon(after, j - 1),
                        orig.frames[j]->Key_0,
                    ) by {
                    if j < i {
                        assert(after[j] == before[j]);
                    }
                }
            }
            key = next;
            i = i + 1;
        }
        proof {
            assert forall|j: int| 0 <= j < n implies frame_valid(#[trigger] self@.frames[j], self@.total()) by {}
        }
    }

    /// The pixels shown at every frame, in order.
    pub fn reconstruct(&self) -> (r: Vec<Bruh>)
        requires
            self@.wf(),
        ensures
            r@.len() == self.frames@.len(),
            forall|j: int| 0 <= j < r@.len() ==> #[trigger] r@[j]@ == recon(self@.frames, j),
    {
        let n = self.frames.len();
        let mut key = Bruh { pixels: self.frames[0].force_key().pixels.clone() };
        assert(key@ =~= recon(self@.frames, 0));
        let mut out: Vec<Bruh> = Vec::new();
        let mut i: usize = 0;
        while i < n
            invariant
                self@.wf(),
                n == self.frames@.len(),
                i < n ==> key@ == recon(self@.frames, i as int),
                i <= n,
                out@.len() == i,
                forall|j: int| 0 <= j < i ==> #[trigger] out@[j]@ == recon(self@.frames, j),
            decreases n - i,
        {
            let shown = Bruh { pixels: key.pixels.clone() };
            assert(shown@ =~= key@);
            out.push(shown);
            i = i + 1;
            if i < n {
                proof {
                    lemma_recon_len(self@, i - 1);
                    assert(frame_valid(self@.frames[i as int], self@.total()));
                }
                key = match &self.frames[i] {
                    Frame::Key(p) => Bruh { pixels: p.pixels.clone() },
                    Frame::Delta(ops) => match key.apply(ops) {
                        Ok(p) => p,
                        Err(_) => {
                            assert(false);
                            return out;
                        },
                    },
                };
                assert(key@ =~= recon(self@.frames, i as int));
            }
        }
        out
    }
}

impl PartialEq for Bruhs {
    fn eq(&self, other: &Bruhs) -> (r: bool) {
        if self.width != other.width || self.height != other.height {
            return false;
        }
        if self.frames.len() != other.frames.len() {
            assert(self@.frames.len() != other@.frames.len());
            return false;
        }
        let mut i: usize = 0;
        while i < self.frames.len()
            invariant
                self.frames@.len() == other.frames@.len(),
                i <= self.frames@.len(),
                forall|j: int| 0 <= j < i ==> self.frames@[j]@ == other.frames@[j]@,
            decreases self.frames@.len() - i,
        {
            if self.frames[i] != other.frames[i] {
                assert(self@.frames[i as int] != other@.frames[i as int]);
                return false;
            }
            i = i + 1;
        }
        assert(self@.frames =~= other@.frames);
        true
    }
}

impl vstd::std_specs::cmp::PartialEqSpecImpl for Bruhs {
    open spec fn obeys_eq_spec() -> bool {
        true
    }

    open spec fn eq_spec(&self, other: &Bruhs) -> bool {
        self@ == other@
    }
}

} // verus!
