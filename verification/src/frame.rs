//! The protocol's value model: a closed set of frame variants, the spec-level
//! shape of a frame, its well-formedness invariant, and its wire encoding.

use vstd::prelude::*;
use crate::digits::{dec_digits, lemma_dec_digits, push_decimal};
use crate::utf8::{is_utf8, is_utf8_slice};

verus! {

broadcast use vstd::std_specs::vec::group_vec_axioms;

/// Carriage return: with `LF` it forms the protocol's line terminator.
pub const CR: u8 = 0x0d;

/// Line feed.
pub const LF: u8 = 0x0a;

/// Leading byte of a simple string frame (`+`).
pub const SIGIL_SIMPLE: u8 = 0x2b;

/// Leading byte of an error frame (`-`).
pub const SIGIL_ERROR: u8 = 0x2d;

/// Leading byte of an integer frame (`:`).
pub const SIGIL_INTEGER: u8 = 0x3a;

/// Leading byte of a bulk frame and of the null frame (`$`).
pub const SIGIL_BULK: u8 = 0x24;

/// Leading byte of an array frame (`*`).
pub const SIGIL_ARRAY: u8 = 0x2a;

/// One discrete protocol message unit. Simple and error frames carry the
/// raw bytes of their text, which the wire format requires to be well-formed
/// UTF-8 free of CR and LF; a bulk frame carries an arbitrary byte payload;
/// an array owns its child frames outright.
#[derive(Debug, PartialEq, Eq)]
pub enum Frame {
    Simple(Vec<u8>),
    Error(Vec<u8>),
    Integer(u64),
    Bulk(Vec<u8>),
    Null,
    Array(Vec<Frame>),
}

/// The mathematical shape of a frame: sequences in place of vectors.
pub enum FrameModel {
    Simple(Seq<u8>),
    Error(Seq<u8>),
    Integer(u64),
    Bulk(Seq<u8>),
    Null,
    Array(Seq<FrameModel>),
}

/// The model of a frame value.
pub open spec fn frame_model(f: Frame) -> FrameModel
    decreases f,
{
    match f {
        Frame::Simple(s) => FrameModel::Simple(s@),
        Frame::Error(s) => FrameModel::Error(s@),
        Frame::Integer(n) => FrameModel::Integer(n),
        Frame::Bulk(b) => FrameModel::Bulk(b@),
        Frame::Null => FrameModel::Null,
        Frame::Array(v) => FrameModel::Array(frames_model(v@)),
    }
}

/// The models of a sequence of frames, in order.
pub open spec fn frames_model(s: Seq<Frame>) -> Seq<FrameModel>
    decreases s,
{
    if s.len() == 0 {
        Seq::empty()
    } else {
        frames_model(s.drop_last()).push(frame_model(s.last()))
    }
}

impl View for Frame {
    type V = FrameModel;

    open spec fn view(&self) -> FrameModel {
        frame_model(*self)
    }
}

pub proof fn lemma_frames_model(s: Seq<Frame>)
    ensures
        frames_model(s).len() == s.len(),
        forall|i: int| 0 <= i < s.len() ==> #[trigger] frames_model(s)[i] == frame_model(s[i]),
    decreases s,
{
    if s.len() > 0 {
        lemma_frames_model(s.drop_last());
    }
}

pub proof fn lemma_frames_model_push(s: Seq<Frame>, x: Frame)
    ensures
        frames_model(s.push(x)) == frames_model(s).push(frame_model(x)),
{
    assert(s.push(x).drop_last() =~= s);
    assert(s.push(x).last() == x);
}

/// The text of a simple or error frame: it may not contain the bytes that
/// delimit a line.
pub open spec fn line_ok(s: Seq<u8>) -> bool {
    !s.contains(CR) && !s.contains(LF)
}

/// A frame that the wire format can represent: line-based text is
/// well-formed UTF-8 free of CR and LF, and every declared length fits in
/// the protocol's `u64` fields.
pub open spec fn wf(f: FrameModel) -> bool
    decreases f,
{
    match f {
        FrameModel::Simple(s) => line_ok(s) && is_utf8(s),
        FrameModel::Error(s) => line_ok(s) && is_utf8(s),
        FrameModel::Integer(_) => true,
        FrameModel::Bulk(b) => b.len() <= u64::MAX,
        FrameModel::Null => true,
        FrameModel::Array(items) => items.len() <= u64::MAX && (forall|i: int|
            0 <= i < items.len() ==> wf(#[trigger] items[i])),
    }
}

/// The line terminator.
pub open spec fn crlf() -> Seq<u8> {
    seq![CR, LF]
}

/// The wire bytes of a frame: sigil, then a line, a length-prefixed payload,
/// or a count followed by the encoded children.
pub open spec fn enc(f: FrameModel) -> Seq<u8>
    decreases f,
{
    match f {
        FrameModel::Simple(s) => seq![SIGIL_SIMPLE] + s + crlf(),
        FrameModel::Error(s) => seq![SIGIL_ERROR] + s + crlf(),
        FrameModel::Integer(n) => seq![SIGIL_INTEGER] + dec_digits(n) + crlf(),
        FrameModel::Bulk(b) => seq![SIGIL_BULK] + dec_digits(b.len() as u64) + crlf() + b
            + crlf(),
        FrameModel::Null => seq![SIGIL_BULK, 0x2d, 0x31] + crlf(),
        FrameModel::Array(items) => seq![SIGIL_ARRAY] + dec_digits(items.len() as u64) + crlf()
            + enc_items(items),
    }
}

/// The wire bytes of an array's children, one encoding after the other.
pub open spec fn enc_items(items: Seq<FrameModel>) -> Seq<u8>
    decreases items,
{
    if items.len() == 0 {
        Seq::empty()
    } else {
        enc(items[0]) + enc_items(items.drop_first())
    }
}

/// Every frame occupies at least three bytes on the wire.
pub proof fn lemma_enc_len(f: FrameModel)
    ensures
        enc(f).len() >= 3,
{
    match f {
        FrameModel::Integer(n) => lemma_dec_digits(n),
        FrameModel::Bulk(b) => lemma_dec_digits(b.len() as u64),
        FrameModel::Array(items) => lemma_dec_digits(items.len() as u64),
        _ => (),
    }
}

pub proof fn lemma_enc_items_snoc(items: Seq<FrameModel>, k: int)
    requires
        0 <= k < items.len(),
    ensures
        enc_items(items.take(k + 1)) == enc_items(items.take(k)) + enc(items[k]),
    decreases k,
{
    let a = items.take(k + 1);
    let b = items.take(k);
    if k == 0 {
        assert(b =~= Seq::<FrameModel>::empty());
        assert(a.drop_first() =~= Seq::<FrameModel>::empty());
        assert(enc_items(a) == enc(items[0]) + enc_items(a.drop_first()));
        assert(enc_items(a) =~= enc_items(b) + enc(items[0]));
    } else {
        lemma_enc_items_snoc(items.drop_first(), k - 1);
        assert(a.drop_first() =~= items.drop_first().take(k));
        assert(b.drop_first() =~= items.drop_first().take(k - 1));
        assert(a[0] == items[0] && b[0] == items[0]);
        assert(items.drop_first()[k - 1] == items[k]);
        assert(enc_items(a) == enc(items[0]) + enc_items(items.drop_first().take(k)));
        assert(enc_items(b) == enc(items[0]) + enc_items(items.drop_first().take(k - 1)));
        assert(enc_items(a) =~= enc_items(b) + enc(items[k]));
    }
}

/// Appends every byte of `src`.
fn push_bytes(src: &Vec<u8>, out: &mut Vec<u8>)
    ensures
        final(out)@ == old(out)@ + src@,
{
    let mut i: usize = 0;
    while i < src.len()
        invariant
            i <= src@.len(),
            out@ == old(out)@ + src@.take(i as int),
        decreases src@.len() - i,
    {
        out.push(src[i]);
        assert(out@ =~= old(out)@ + src@.take(i + 1));
        i = i + 1;
    }
    assert(src@.take(src@.len() as int) =~= src@);
}

impl Frame {
    /// Serializes this frame, appending its wire bytes to `out`. Only a
    /// well-formed frame has a faithful wire form, so only one may be
    /// encoded.
    pub fn encode_into(&self, out: &mut Vec<u8>)
        requires
            wf(self@),
        ensures
            final(out)@ == old(out)@ + enc(self@),
        decreases self,
    {
        match self {
            Frame::Simple(s) => {
                out.push(SIGIL_SIMPLE);
                push_bytes(s, out);
                out.push(CR);
                out.push(LF);
                assert(out@ =~= old(out)@ + enc(self@));
            },
            Frame::Error(s) => {
                out.push(SIGIL_ERROR);
                push_bytes(s, out);
                out.push(CR);
                out.push(LF);
                assert(out@ =~= old(out)@ + enc(self@));
            },
            Frame::Integer(n) => {
                out.push(SIGIL_INTEGER);
                push_decimal(*n, out);
                out.push(CR);
                out.push(LF);
                assert(out@ =~= old(out)@ + enc(self@));
            },
            Frame::Bulk(b) => {
                out.push(SIGIL_BULK);
                push_decimal(b.len() as u64, out);
                out.push(CR);
                out.push(LF);
                push_bytes(b, out);
                out.push(CR);
                out.push(LF);
                assert(out@ =~= old(out)@ + enc(self@));
            },
            Frame::Null => {
                out.push(SIGIL_BULK);
                out.push(0x2d);
                out.push(0x31);
                out.push(CR);
                out.push(LF);
                assert(out@ =~= old(out)@ + enc(self@));
            },
            Frame::Array(v) => {
                out.push(SIGIL_ARRAY);
                push_decimal(v.len() as u64, out);
                out.push(CR);
                out.push(LF);
                let ghost fm = frames_model(v@);
                let ghost base = out@;
                proof {
                    lemma_frames_model(v@);
                }
                assert(forall|j: int| 0 <= j < fm.len() ==> wf(#[trigger] fm[j]));
                let mut i: usize = 0;
                while i < v.len()
                    invariant
                        i <= v@.len(),
                        *self == Frame::Array(*v),
                        fm == frames_model(v@),
                        fm.len() == v@.len(),
                        forall|j: int| 0 <= j < v@.len() ==> #[trigger] fm[j] == frame_model(
                            v@[j],
                        ),
                        forall|j: int| 0 <= j < fm.len() ==> wf(#[trigger] fm[j]),
                        out@ == base + enc_items(fm.take(i as int)),
                    decreases v@.len() - i,
                {
                    assert(enc_items(fm.take(0)) =~= Seq::<u8>::empty());
                    proof {
                        assert(decreases_to!(*self => self->Array_0));
                        assert(decreases_to!(*v => v@));
                        assert(decreases_to!(v@ => v@[i as int]));
                        assert(decreases_to!(*self => v@[i as int]));
                        assert(frame_model(v@[i as int]) == fm[i as int]);
                        assert(wf(fm[i as int]));
                    }
                    v[i].encode_into(out);
                    proof {
                        lemma_enc_items_snoc(fm, i as int);
                    }
                    assert(out@ =~= base + enc_items(fm.take(i + 1)));
                    i = i + 1;
                }
                assert(fm.take(fm.len() as int) =~= fm);
                assert(out@ =~= old(out)@ + enc(self@));
            },
        }
    }

    /// Serializes this frame into a fresh byte vector; the frame must be
    /// well-formed (`is_well_formed` decides it).
    pub fn encode(&self) -> (out: Vec<u8>)
        requires
            wf(self@),
        ensures
            out@ == enc(self@),
    {
        let mut out: Vec<u8> = Vec::new();
        self.encode_into(&mut out);
        assert(out@ =~= enc(self@));
        out
    }

    /// Decides whether this frame satisfies the wire format's invariant.
    pub fn is_well_formed(&self) -> (b: bool)
        ensures
            b == wf(self@),
        decreases self,
    {
        match self {
            Frame::Simple(s) => line_clean(s) && is_utf8_slice(s.as_slice()),
            Frame::Error(s) => line_clean(s) && is_utf8_slice(s.as_slice()),
            Frame::Integer(_) => true,
            Frame::Bulk(b) => {
                proof {
                    vstd::std_specs::vec::axiom_spec_len(b);
                }
                assert(b@.len() <= u64::MAX);
                true
            },
            Frame::Null => true,
            Frame::Array(v) => {
                let ghost fm = frames_model(v@);
                proof {
                    vstd::std_specs::vec::axiom_spec_len(v);
                    lemma_frames_model(v@);
                }
                let mut i: usize = 0;
                while i < v.len()
                    invariant
                        i <= v@.len(),
                        *self == Frame::Array(*v),
                        fm == frames_model(v@),
                        fm.len() == v@.len(),
                        forall|j: int| 0 <= j < v@.len() ==> #[trigger] fm[j] == frame_model(
                            v@[j],
                        ),
                        forall|j: int| 0 <= j < i ==> wf(#[trigger] fm[j]),
                    decreases v@.len() - i,
                {
                    proof {
                        assert(decreases_to!(*self => self->Array_0));
                        assert(decreases_to!(*v => v@));
                        assert(decreases_to!(v@ => v@[i as int]));
                        assert(decreases_to!(*self => v@[i as int]));
                    }
                    if !v[i].is_well_formed() {
                        assert(!wf(fm[i as int]));
                        return false;
                    }
                    i = i + 1;
                }
                true
            },
        }
    }
}

/// Decides whether a text payload is free of the line delimiter bytes.
fn line_clean(s: &Vec<u8>) -> (b: bool)
    ensures
        b == line_ok(s@),
{
    let mut i: usize = 0;
    while i < s.len()
        invariant
            i <= s@.len(),
            forall|j: int| 0 <= j < i ==> #[trigger] s@[j] != CR && s@[j] != LF,
        decreases s@.len() - i,
    {
        let b = s[i];
        if b == CR || b == LF {
            return false;
        }
        i = i + 1;
    }
    true
}

} // verus!
