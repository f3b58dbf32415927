//! A transform that re-encodes bytes of a named character set into UTF-8.

use vstd::prelude::*;

use super::ByteTransform;
use crate::utils::copy_bytes;

verus! {

/// Whether `label` names a character encoding of the standard registry.
pub uninterp spec fn is_known_label(label: Seq<u8>) -> bool;

/// The UTF-8 bytes that streaming `bytes` through a fresh decoder for the
/// encoding labelled `label` produces. With `last` false, bytes of a
/// trailing incomplete code unit sequence are withheld (see [`utf8_tail`]);
/// with `last` true the stream is flushed and malformed trailing bytes are
/// resolved by the decoder's replacement policy.
pub uninterp spec fn utf8_out(label: Seq<u8>, bytes: Seq<u8>, last: bool) -> Seq<u8>;

/// The trailing incomplete code unit sequence left over after streaming
/// `bytes` through a fresh decoder for the encoding labelled `label`
/// without marking the stream finished.
pub uninterp spec fn utf8_tail(label: Seq<u8>, bytes: Seq<u8>) -> Seq<u8>;

/// Relies on `encoding_rs::Encoding::for_label`: whether a label resolves
/// to an encoding of the WHATWG registry. The registry is fixed, so the
/// result depends on the label alone.
#[verifier::external_body]
fn known_label(label: &[u8]) -> (r: bool)
    ensures
        r == is_known_label(label@),
{
    encoding_rs::Encoding::for_label(label).is_some()
}

/// Relies on encoding_rs (`Encoding::for_label`,
/// `Encoding::new_decoder_without_bom_handling`, `Decoder::decode_to_utf8`,
/// `Decoder::decode_to_utf8_without_replacement`): streams the buffered
/// tail followed by `input` through a fresh decoder for the labelled
/// encoding, returning the UTF-8 output and, for a non-final slice, the
/// bytes of a trailing incomplete sequence that the final flush probe
/// reports. Decoding is deterministic: both results are functions of the
/// label, the bytes and the flag alone.
#[verifier::external_body]
fn decode_chunk(label: &[u8], tail: &[u8], input: &[u8], last: bool) -> (r: (Vec<u8>, Vec<u8>))
    requires
        is_known_label(label@),
    ensures
        r.0@ == utf8_out(label@, tail@ + input@, last),
        r.1@ == if last {
            Seq::<u8>::empty()
        } else {
            utf8_tail(label@, tail@ + input@)
        },
{
    let mut decoder = encoding_rs::Encoding::for_label(label).unwrap().new_decoder_without_bom_handling();
    let joined = [tail, input].concat();
    let mut out = vec![0u8; decoder.max_utf8_buffer_length(joined.len()).unwrap_or(usize::MAX)];
    let (_, _, written, _) = decoder.decode_to_utf8(&joined, &mut out, last);
    out.truncate(written);
    if last {
        return (out, Vec::new());
    }
    let mut probe = [0u8; 16];
    let (result, _, _) = decoder.decode_to_utf8_without_replacement(&[], &mut probe, true);
    let keep = if let encoding_rs::DecoderResult::Malformed(n, m) = result { (n + m) as usize } else { 0 };
    (out, joined[joined.len().saturating_sub(keep)..].to_vec())
}

/// Converts bytes from a named source character set to UTF-8.
///
/// Partial code unit sequences at slice boundaries are buffered and
/// processed together with the next slice; the buffer is exactly the
/// transform's state.
#[derive(Clone, Debug)]
pub struct Utf8Encoder {
    /// The label of the source encoding, as the registry knows it.
    label: Vec<u8>,
    /// Bytes of an incomplete code unit sequence from the previous slice.
    buffer: Vec<u8>,
}

impl View for Utf8Encoder {
    type V = (Seq<u8>, Seq<u8>);

    closed spec fn view(&self) -> Self::V {
        (self.label@, self.buffer@)
    }
}

impl Utf8Encoder {
    /// Creates a UTF-8 encoder for the encoding named by `label`, or
    /// returns `None` if the label names no known encoding.
    pub fn new(label: &[u8]) -> (r: Option<Utf8Encoder>)
        ensures
            r.is_some() <==> is_known_label(label@),
            r matches Some(t) ==> t@ == (label@, Seq::<u8>::empty()),
    {
        if known_label(label) {
            Some(Utf8Encoder { label: copy_bytes(label), buffer: Vec::new() })
        } else {
            None
        }
    }

    /// Re-encodes `input` from the character set named by `label` to UTF-8
    /// in a single pass, or returns `None` for an unknown label.
    pub fn convert(label: &[u8], input: &[u8]) -> (r: Option<Vec<u8>>)
        ensures
            r.is_some() <==> is_known_label(label@),
            r matches Some(v) ==> v@ == utf8_out(label@, input@, true),
    {
        match Utf8Encoder::new(label) {
            Some(mut t) => {
                let v = t.transform(input, true);
                proof {
                    assert(Seq::<u8>::empty() + input@ =~= input@);
                }
                Some(v)
            },
            None => None,
        }
    }
}

impl ByteTransform for Utf8Encoder {
    type State = Vec<u8>;

    open spec fn wf(m: Self::V) -> bool {
        is_known_label(m.0)
    }

    open spec fn output(m: Self::V, input: Seq<u8>, last: bool) -> Seq<u8> {
        utf8_out(m.0, m.1 + input, last)
    }

    open spec fn advance(m: Self::V, input: Seq<u8>, last: bool) -> Self::V {
        (
            m.0,
            if last {
                Seq::<u8>::empty()
            } else {
                utf8_tail(m.0, m.1 + input)
            },
        )
    }

    open spec fn restore(m: Self::V, s: Vec<u8>) -> Self::V {
        (m.0, s@)
    }

    proof fn lemma_advance_wf(m: Self::V, input: Seq<u8>, last: bool) {
    }

    proof fn lemma_restore(m: Self::V, input: Seq<u8>, last: bool, s: Vec<u8>) {
    }

    fn transform(&mut self, input: &[u8], last: bool) -> (out: Vec<u8>) {
        let r = decode_chunk(self.label.as_slice(), self.buffer.as_slice(), input, last);
        self.buffer = r.1;
        r.0
    }

    fn transform_len(&mut self, input: &[u8], last: bool) -> (n: usize) {
        let r = decode_chunk(self.label.as_slice(), self.buffer.as_slice(), input, last);
        self.buffer = r.1;
        r.0.len()
    }

    fn state(&self) -> (s: Vec<u8>) {
        copy_bytes(self.buffer.as_slice())
    }

    fn with_state(&self, s: &Vec<u8>) -> (t: Self) {
        Utf8Encoder { label: copy_bytes(self.label.as_slice()), buffer: copy_bytes(s.as_slice()) }
    }
}

} // verus!
