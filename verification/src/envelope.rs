//! The signed envelope in which a transaction is submitted.
//!
//! On the wire an envelope is one byte that says whether a payload follows
//! (`0` or `1`), the payload as a frame if there is one, and the signature as
//! a frame. Nothing may follow the signature.

use vstd::prelude::*;
use crate::error::Error;
use crate::wire::{frame, parse_frame, parse_u8, put_frame, Reader, FRAME_MAX};
use crate::wire::{lemma_frame_canonical, lemma_frame_round_trip};

verus! {

/// Opaque payload bytes with the signature made over them.
#[derive(Clone, Debug, PartialEq, Eq)]
pub struct SignedEnvelope {
    /// What the transaction's logic will be given, if anything.
    pub payload: Option<Vec<u8>>,
    /// The signature over the payload.
    pub signature: Vec<u8>,
}

/// An envelope as contracts see it.
pub struct EnvelopeView {
    pub payload: Option<Seq<u8>>,
    pub signature: Seq<u8>,
}

impl View for SignedEnvelope {
    type V = EnvelopeView;

    open spec fn view(&self) -> EnvelopeView {
        EnvelopeView {
            payload: match self.payload {
                Some(p) => Some(p@),
                None => None,
            },
            signature: self.signature@,
        }
    }
}

impl EnvelopeView {
    /// Whether both fields are short enough to be framed.
    pub open spec fn fits(self) -> bool {
        &&& self.signature.len() <= FRAME_MAX
        &&& self.payload matches Some(p) ==> p.len() <= FRAME_MAX
    }

    /// The bytes that stand for this envelope.
    pub open spec fn encoded(self) -> Seq<u8> {
        match self.payload {
            Some(p) => seq![1u8] + frame(p) + frame(self.signature),
            None => seq![0u8] + frame(self.signature),
        }
    }
}

/// The envelope that `bytes` stand for, if they stand for one.
pub open spec fn decoded(bytes: Seq<u8>) -> Option<EnvelopeView> {
    match parse_u8(bytes) {
        Some((tag, after_tag)) => {
            if tag == 0 {
                match parse_frame(after_tag) {
                    Some((signature, rest)) => if rest.len() == 0 {
                        Some(EnvelopeView { payload: None, signature })
                    } else {
                        None
                    },
                    None => None,
                }
            } else if tag == 1 {
                match parse_frame(after_tag) {
                    Some((payload, after_payload)) => match parse_frame(after_payload) {
                        Some((signature, rest)) => if rest.len() == 0 {
                            Some(EnvelopeView { payload: Some(payload), signature })
                        } else {
                            None
                        },
                        None => None,
                    },
                    None => None,
                }
            } else {
                None
            }
        },
        None => None,
    }
}

/// Decoding what an envelope was encoded to gives the envelope back, whatever
/// its payload and signature, as long as each can be framed.
pub proof fn lemma_decode_encode(e: EnvelopeView)
    requires
        e.fits(),
    ensures
        decoded(e.encoded()) == Some(e),
{
    let bytes = e.encoded();
    let empty = Seq::<u8>::empty();
    match e.payload {
        Some(p) => {
            let after_tag = frame(p) + frame(e.signature);
            assert(bytes.skip(1) =~= after_tag);
            lemma_frame_round_trip(p, frame(e.signature));
            assert(frame(e.signature) + empty =~= frame(e.signature));
            lemma_frame_round_trip(e.signature, empty);
        },
        None => {
            assert(bytes.skip(1) =~= frame(e.signature));
            assert(frame(e.signature) + empty =~= frame(e.signature));
            lemma_frame_round_trip(e.signature, empty);
        },
    }
}

/// Bytes that decode are the one encoding of what they decode to.
pub proof fn lemma_encode_decode(bytes: Seq<u8>, e: EnvelopeView)
    requires
        decoded(bytes) == Some(e),
    ensures
        e.fits(),
        e.encoded() == bytes,
{
    let after_tag = bytes.skip(1);
    match e.payload {
        Some(p) => {
            let after_payload = after_tag.skip(4 + p.len() as int);
            let rest = after_payload.skip(4 + e.signature.len() as int);
            lemma_frame_canonical(after_tag, p, after_payload);
            lemma_frame_canonical(after_payload, e.signature, rest);
            assert(bytes =~= seq![1u8] + after_tag);
            assert(after_payload =~= frame(e.signature));
            assert(e.encoded() =~= bytes);
        },
        None => {
            let rest = after_tag.skip(4 + e.signature.len() as int);
            lemma_frame_canonical(after_tag, e.signature, rest);
            assert(bytes =~= seq![0u8] + after_tag);
            assert(after_tag =~= frame(e.signature));
            assert(e.encoded() =~= bytes);
        },
    }
}

impl SignedEnvelope {
    /// The bytes that stand for this envelope, or `None` where the payload or
    /// the signature is too long to be framed.
    pub fn encode(&self) -> (out: Option<Vec<u8>>)
        ensures
            out is Some <==> self@.fits(),
            out matches Some(bytes) ==> bytes@ == self@.encoded(),
    {
        let mut out: Vec<u8> = Vec::new();
        match &self.payload {
            Some(p) => {
                out.push(1u8);
                if !put_frame(&mut out, p.as_slice()) {
                    return None;
                }
            },
            None => {
                out.push(0u8);
            },
        }
        if !put_frame(&mut out, self.signature.as_slice()) {
            return None;
        }
        assert(out@ =~= self@.encoded());
        Some(out)
    }

    /// The envelope that `bytes` stand for. Bytes that are cut short, that do
    /// not start with `0` or `1`, or that go on behind the signature are refused.
    pub fn decode(bytes: &[u8]) -> (out: Result<SignedEnvelope, Error>)
        ensures
            match decoded(bytes@) {
                Some(e) => out is Ok && out->Ok_0@ == e,
                None => out == Err::<SignedEnvelope, Error>(Error::DecodeError),
            },
    {
        let mut reader = Reader::new(bytes);
        let tag: u8 = match reader.u8() {
            Some(t) => t,
            None => {
                return Err(Error::DecodeError);
            },
        };
        if tag > 1 {
            return Err(Error::DecodeError);
        }
        let payload: Option<Vec<u8>> = if tag == 1 {
            match reader.frame() {
                Some(p) => Some(p),
                None => {
                    return Err(Error::DecodeError);
                },
            }
        } else {
            None
        };
        let signature: Vec<u8> = match reader.frame() {
            Some(s) => s,
            None => {
                return Err(Error::DecodeError);
            },
        };
        if !reader.is_done() {
            return Err(Error::DecodeError);
        }
        Ok(SignedEnvelope { payload, signature })
    }
}

} // verus!
