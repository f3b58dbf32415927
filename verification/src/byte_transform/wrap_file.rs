//! A transform that wraps the whole stream with a prefix and a suffix.

use vstd::prelude::*;

use super::{ByteTransform, SplitTransform};
use crate::utils::copy_bytes;
use crate::utils::push_all;

verus! {

/// The bytes `WrapFile` produces from the model `(prefix, suffix, started)`
/// for one input slice: the prefix before the first slice ever processed,
/// the input verbatim, and the suffix after the final slice.
pub open spec fn wrap_file_out(m: (Seq<u8>, Seq<u8>, bool), input: Seq<u8>, last: bool) -> Seq<
    u8,
> {
    (if m.2 {
        Seq::<u8>::empty()
    } else {
        m.0
    }) + input + (if last {
        m.1
    } else {
        Seq::<u8>::empty()
    })
}

/// Wraps an entire stream with a prefix and suffix.
///
/// The prefix is emitted before the first slice, and the suffix after the
/// last one. Unlike [`super::wrap_lines::WrapLines`], this operates on the
/// stream as a whole rather than on individual lines.
#[derive(Clone, Debug)]
pub struct WrapFile {
    prefix: Vec<u8>,
    suffix: Vec<u8>,
    /// Whether the prefix has already been emitted.
    started: bool,
}

impl View for WrapFile {
    type V = (Seq<u8>, Seq<u8>, bool);

    closed spec fn view(&self) -> Self::V {
        (self.prefix@, self.suffix@, self.started)
    }
}

impl WrapFile {
    /// Creates a new stream wrapper with the given prefix and suffix.
    pub fn new(prefix: &[u8], suffix: &[u8]) -> (t: Self)
        ensures
            t@ == (prefix@, suffix@, false),
    {
        WrapFile { prefix: copy_bytes(prefix), suffix: copy_bytes(suffix), started: false }
    }

    /// The output length for the given input.
    fn calculate_len(&self, input: &[u8], last: bool) -> (n: usize)
        requires
            wrap_file_out(self@, input@, last).len() <= usize::MAX,
        ensures
            n == wrap_file_out(self@, input@, last).len(),
    {
        let mut output_len = input.len();
        if !self.started {
            output_len += self.prefix.len();
        }
        if last {
            output_len += self.suffix.len();
        }
        output_len
    }
}

impl ByteTransform for WrapFile {
    type State = bool;

    open spec fn wf(m: Self::V) -> bool {
        true
    }

    open spec fn output(m: Self::V, input: Seq<u8>, last: bool) -> Seq<u8> {
        wrap_file_out(m, input, last)
    }

    open spec fn advance(m: Self::V, input: Seq<u8>, last: bool) -> Self::V {
        (m.0, m.1, true)
    }

    open spec fn restore(m: Self::V, s: bool) -> Self::V {
        (m.0, m.1, s)
    }

    proof fn lemma_advance_wf(m: Self::V, input: Seq<u8>, last: bool) {
    }

    proof fn lemma_restore(m: Self::V, input: Seq<u8>, last: bool, s: bool) {
    }

    fn transform(&mut self, input: &[u8], last: bool) -> (out: Vec<u8>) {
        let mut out: Vec<u8> = Vec::new();
        if !self.started {
            push_all(&mut out, self.prefix.as_slice());
            self.started = true;
        }
        push_all(&mut out, input);
        if last {
            push_all(&mut out, self.suffix.as_slice());
        }
        proof {
            assert(out@ =~= wrap_file_out(old(self)@, input@, last));
        }
        out
    }

    fn transform_len(&mut self, input: &[u8], last: bool) -> (n: usize) {
        let output_len = self.calculate_len(input, last);
        self.started = true;
        output_len
    }

    fn state(&self) -> (s: bool) {
        self.started
    }

    fn with_state(&self, s: &bool) -> (t: Self) {
        WrapFile {
            prefix: copy_bytes(self.prefix.as_slice()),
            suffix: copy_bytes(self.suffix.as_slice()),
            started: *s,
        }
    }
}

impl SplitTransform for WrapFile {
    proof fn lemma_split(m: Self::V, a: Seq<u8>, b: Seq<u8>, last: bool) {
        assert(wrap_file_out(m, a + b, last) =~= wrap_file_out(m, a, false) + wrap_file_out(
            (m.0, m.1, true),
            b,
            last,
        ));
    }
}

} // verus!
