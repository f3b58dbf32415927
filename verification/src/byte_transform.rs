//! Streaming byte transforms and their composition.

use vstd::prelude::*;
use core::ops::Range;

verus! {

/// A stateful byte-level transformation applied to streaming data.
///
/// A transform's visible behaviour is fixed by its abstract value (its
/// [`View`]): `output` gives the bytes produced for an input slice and
/// `advance` the abstract value afterwards, so that feeding a stream in
/// pieces threads the state from piece to piece. The `last` flag marks the
/// final piece and lets a transform flush trailing state; no further input
/// may follow it.
///
/// A snapshot of the internal state can be taken with [`ByteTransform::state`]
/// and restored with [`ByteTransform::with_state`]; `restore` says what the
/// abstract value of the restored transform is. Restoring a snapshot only
/// resets the streaming position: the configuration (affixes, encoding)
/// is kept, which is what [`ByteTransform::lemma_restore`] states.
pub trait ByteTransform: View + Sized {
    /// The snapshot of the internal state.
    type State;

    /// Whether the abstract value is well formed (e.g. its configuration
    /// resolves); all operations preserve it.
    spec fn wf(m: Self::V) -> bool;

    /// The bytes produced for `input` from the abstract value `m`.
    spec fn output(m: Self::V, input: Seq<u8>, last: bool) -> Seq<u8>;

    /// The abstract value after consuming `input`.
    spec fn advance(m: Self::V, input: Seq<u8>, last: bool) -> Self::V;

    /// The abstract value obtained by restoring snapshot `s` into `m`.
    spec fn restore(m: Self::V, s: Self::State) -> Self::V;

    /// Consuming input keeps the transform well formed.
    proof fn lemma_advance_wf(m: Self::V, input: Seq<u8>, last: bool)
        requires
            Self::wf(m),
        ensures
            Self::wf(Self::advance(m, input, last)),
    ;

    /// Restoring a snapshot ignores the streaming position reached so far
    /// and keeps the transform well formed.
    proof fn lemma_restore(m: Self::V, input: Seq<u8>, last: bool, s: Self::State)
        requires
            Self::wf(m),
        ensures
            Self::restore(Self::advance(m, input, last), s) == Self::restore(m, s),
            Self::wf(Self::restore(m, s)),
    ;

    /// Transforms a slice of input bytes, returning the produced output.
    fn transform(&mut self, input: &[u8], last: bool) -> (out: Vec<u8>)
        requires
            Self::wf(old(self)@),
        ensures
            out@ == Self::output(old(self)@, input@, last),
            final(self)@ == Self::advance(old(self)@, input@, last),
    ;

    /// Returns the length `transform` would produce, advancing the internal
    /// state identically but without materializing the output.
    fn transform_len(&mut self, input: &[u8], last: bool) -> (n: usize)
        requires
            Self::wf(old(self)@),
            Self::output(old(self)@, input@, last).len() <= usize::MAX,
        ensures
            n == Self::output(old(self)@, input@, last).len(),
            final(self)@ == Self::advance(old(self)@, input@, last),
    ;

    /// Snapshots the current internal state.
    fn state(&self) -> (s: Self::State)
        ensures
            Self::restore(self@, s) == self@,
    ;

    /// Returns a fresh instance with the given state restored.
    fn with_state(&self, s: &Self::State) -> (t: Self)
        ensures
            t@ == Self::restore(self@, *s),
    ;
}

/// A transform whose output does not depend on where the input stream is
/// split: processing a prefix and then the rest from the threaded state
/// yields the same concatenated output as a single call. All transforms in
/// this crate satisfy it except the UTF-8 re-encoder, whose splitting
/// behaviour lives in an outside encoding library.
pub trait SplitTransform: ByteTransform {
    /// Splitting the input at any point neither changes the concatenated
    /// output nor the state reached at the end.
    proof fn lemma_split(m: Self::V, a: Seq<u8>, b: Seq<u8>, last: bool)
        requires
            Self::wf(m),
        ensures
            Self::output(m, a + b, last) == Self::output(m, a, false) + Self::output(
                Self::advance(m, a, false),
                b,
                last,
            ),
            Self::advance(m, a + b, last) == Self::advance(Self::advance(m, a, false), b, last),
    ;
}

/// Random access into the decoded view of a byte source.
///
/// `out_seq` is the full decoded output and `src_seq` the source it was
/// derived from; `decode_range` serves any slice of the output given the
/// source bytes that `input_range_for` (computed by `calc_input_range`)
/// says it needs.
pub trait Decoder {
    /// The decoder's invariant.
    spec fn wf(&self) -> bool;

    /// Whether the decoder's transform configuration is well formed.
    spec fn seed_ok(&self) -> bool;

    /// The source bytes the decoder was built over.
    spec fn src_seq(&self) -> Seq<u8>;

    /// The full decoded output.
    spec fn out_seq(&self) -> Seq<u8>;

    /// The source range whose bytes suffice to decode output range
    /// `[start, end)`; empty requests need no bytes.
    spec fn input_range_for(&self, start: int, end: int) -> (int, int);

    /// The bytes a decode of `[start, end)` returns: the matching slice of
    /// the full decoded output, after clamping `end` to the output size;
    /// empty whenever the clamped range is.
    open spec fn decoded_range(&self, start: int, end: int) -> Seq<u8> {
        let len = self.out_seq().len() as int;
        let end_c = if end > len {
            len
        } else {
            end
        };
        if !(0 <= start < len) || end_c <= start {
            Seq::empty()
        } else {
            self.out_seq().subrange(start, end_c)
        }
    }

    /// The total size of the decoded output in bytes.
    fn output_size(&self) -> (n: u64)
        requires
            self.wf(),
        ensures
            n == self.out_seq().len(),
    ;

    /// Translates a decoded range to the minimal source range whose bytes
    /// suffice to decode it.
    fn calc_input_range(&self, output_range: Range<u64>) -> (r: Range<u64>)
        requires
            self.wf(),
        ensures
            (r.start as int, r.end as int) == self.input_range_for(
                output_range.start as int,
                output_range.end as int,
            ),
            r.start <= r.end <= self.src_seq().len(),
    ;

    /// Decodes the output range `dst_range`, given source bytes starting at
    /// absolute offset `src_offset` that cover the whole source range
    /// `input_range_for` gives for the request.
    fn decode_range(&self, src: &[u8], src_offset: u64, dst_range: Range<u64>) -> (out: Vec<u8>)
        requires
            self.wf(),
            self.seed_ok(),
            src_offset + src@.len() <= self.src_seq().len(),
            src@ == self.src_seq().subrange(src_offset as int, src_offset + src@.len()),
            src_offset <= self.input_range_for(dst_range.start as int, dst_range.end as int).0,
            self.input_range_for(dst_range.start as int, dst_range.end as int).1 <= src_offset
                + src@.len(),
        ensures
            out@ == self.decoded_range(dst_range.start as int, dst_range.end as int),
    ;
}

/// Two transforms compose by piping the first one's output into the second,
/// both receiving the same `last` flag; the composite state is the pair of
/// the two states. Composition is associative.
impl<A: ByteTransform, B: ByteTransform> ByteTransform for (A, B) {
    type State = (A::State, B::State);

    open spec fn wf(m: Self::V) -> bool {
        A::wf(m.0) && B::wf(m.1)
    }

    open spec fn output(m: Self::V, input: Seq<u8>, last: bool) -> Seq<u8> {
        B::output(m.1, A::output(m.0, input, last), last)
    }

    open spec fn advance(m: Self::V, input: Seq<u8>, last: bool) -> Self::V {
        (A::advance(m.0, input, last), B::advance(m.1, A::output(m.0, input, last), last))
    }

    open spec fn restore(m: Self::V, s: Self::State) -> Self::V {
        (A::restore(m.0, s.0), B::restore(m.1, s.1))
    }

    proof fn lemma_advance_wf(m: Self::V, input: Seq<u8>, last: bool) {
        A::lemma_advance_wf(m.0, input, last);
        B::lemma_advance_wf(m.1, A::output(m.0, input, last), last);
    }

    proof fn lemma_restore(m: Self::V, input: Seq<u8>, last: bool, s: Self::State) {
        A::lemma_restore(m.0, input, last, s.0);
        B::lemma_restore(m.1, A::output(m.0, input, last), last, s.1);
    }

    fn transform(&mut self, input: &[u8], last: bool) -> (out: Vec<u8>) {
        let mid = self.0.transform(input, last);
        self.1.transform(mid.as_slice(), last)
    }

    fn transform_len(&mut self, input: &[u8], last: bool) -> (n: usize) {
        let mid = self.0.transform(input, last);
        self.1.transform_len(mid.as_slice(), last)
    }

    fn state(&self) -> (s: Self::State) {
        (self.0.state(), self.1.state())
    }

    fn with_state(&self, s: &Self::State) -> (t: Self) {
        (self.0.with_state(&s.0), self.1.with_state(&s.1))
    }
}

impl<A: SplitTransform, B: SplitTransform> SplitTransform for (A, B) {
    proof fn lemma_split(m: Self::V, a: Seq<u8>, b: Seq<u8>, last: bool) {
        A::lemma_split(m.0, a, b, last);
        B::lemma_split(
            m.1,
            A::output(m.0, a, false),
            A::output(A::advance(m.0, a, false), b, last),
            last,
        );
    }
}

} // verus!

pub mod chunked;
pub mod remove_line_breaks;
pub mod utf8_encoder;
pub mod wrap_file;
pub mod wrap_lines;
