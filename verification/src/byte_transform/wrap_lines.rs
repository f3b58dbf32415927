//! A transform that wraps each line with a prefix and a suffix.

use vstd::prelude::*;

use super::{ByteTransform, SplitTransform};
use crate::utils::copy_bytes;
use crate::utils::push_all;

verus! {

/// The bytes `WrapLines` produces for one input slice, given the affixes,
/// whether the stream is currently at the start of a line, and whether this
/// slice is the last one. Bytes are handled one at a time: a `\n` closes a
/// non-empty line with the suffix, a first byte on a line opens it with the
/// prefix, blank lines pass through untouched, and a line still open at the
/// end of the final slice is closed with the suffix.
pub open spec fn wrap_lines_out(
    p: Seq<u8>,
    s: Seq<u8>,
    at_start: bool,
    input: Seq<u8>,
    last: bool,
) -> Seq<u8>
    decreases input.len(),
{
    if input.len() == 0 {
        if last && !at_start {
            s
        } else {
            Seq::<u8>::empty()
        }
    } else {
        let b = input[0];
        let rest = input.skip(1);
        if b == 10u8 {
            (if at_start {
                seq![b]
            } else {
                s + seq![b]
            }) + wrap_lines_out(p, s, true, rest, last)
        } else {
            (if at_start {
                p + seq![b]
            } else {
                seq![b]
            }) + wrap_lines_out(p, s, false, rest, last)
        }
    }
}

/// Whether the stream is at the start of a line after consuming `input`.
pub open spec fn wrap_lines_next(at_start: bool, input: Seq<u8>) -> bool {
    if input.len() == 0 {
        at_start
    } else {
        input.last() == 10u8
    }
}

pub proof fn lemma_wrap_lines_split(
    p: Seq<u8>,
    s: Seq<u8>,
    at_start: bool,
    a: Seq<u8>,
    b: Seq<u8>,
    last: bool,
)
    ensures
        wrap_lines_out(p, s, at_start, a + b, last) == wrap_lines_out(p, s, at_start, a, false)
            + wrap_lines_out(p, s, wrap_lines_next(at_start, a), b, last),
        wrap_lines_next(at_start, a + b) == wrap_lines_next(wrap_lines_next(at_start, a), b),
    decreases a.len(),
{
    if a.len() == 0 {
        assert(a + b =~= b);
        assert(Seq::<u8>::empty() + wrap_lines_out(p, s, at_start, b, last) =~= wrap_lines_out(
            p,
            s,
            at_start,
            b,
            last,
        ));
    } else {
        let h = a[0];
        let el1 = h != 10u8;
        let next1 = (h == 10u8);
        assert((a + b)[0] == h);
        assert((a + b).skip(1) =~= a.skip(1) + b);
        lemma_wrap_lines_split(p, s, next1, a.skip(1), b, last);
        if a.skip(1).len() == 0 {
            assert(wrap_lines_next(next1, a.skip(1)) == next1);
            assert(a.last() == h);
        } else {
            assert(a.skip(1).last() == a.last());
        }
        assert(wrap_lines_next(next1, a.skip(1)) == wrap_lines_next(at_start, a));
        let piece = if h == 10u8 {
            if at_start {
                seq![h]
            } else {
                s + seq![h]
            }
        } else {
            if at_start {
                p + seq![h]
            } else {
                seq![h]
            }
        };
        let x = wrap_lines_out(p, s, next1, a.skip(1), false);
        let y = wrap_lines_out(p, s, wrap_lines_next(at_start, a), b, last);
        assert(piece + (x + y) =~= (piece + x) + y);
        if b.len() == 0 {
            assert(a + b =~= a);
        } else {
            assert((a + b).last() == b.last());
        }
    }
}

/// Wraps each line with a prefix and suffix.
///
/// Empty lines (consecutive newlines) are preserved without wrapping. `\n`
/// is the sole line terminator; lines may span slice boundaries, tracked by
/// whether the current position is at the start of a new line.
#[derive(Clone, Debug)]
pub struct WrapLines {
    prefix: Vec<u8>,
    suffix: Vec<u8>,
    /// Whether we are currently at the start of a new line.
    empty_line: bool,
}

impl View for WrapLines {
    type V = (Seq<u8>, Seq<u8>, bool);

    closed spec fn view(&self) -> Self::V {
        (self.prefix@, self.suffix@, self.empty_line)
    }
}

impl WrapLines {
    /// Creates a new line wrapper with the given prefix and suffix.
    pub fn new(prefix: &[u8], suffix: &[u8]) -> (t: Self)
        ensures
            t@ == (prefix@, suffix@, true),
    {
        WrapLines { prefix: copy_bytes(prefix), suffix: copy_bytes(suffix), empty_line: true }
    }

    /// The output length for the given input together with the line state
    /// afterwards, leaving the transform untouched.
    fn calculate_len(&self, input: &[u8], last: bool) -> (r: (usize, bool))
        requires
            wrap_lines_out(self@.0, self@.1, self@.2, input@, last).len() <= usize::MAX,
        ensures
            r.0 == wrap_lines_out(self@.0, self@.1, self@.2, input@, last).len(),
            r.1 == wrap_lines_next(self@.2, input@),
    {
        let ghost p = self@.0;
        let ghost s = self@.1;
        let ghost el0 = self@.2;
        let ghost total = wrap_lines_out(p, s, el0, input@, last);
        let mut n: usize = 0;
        let mut el = self.empty_line;
        let mut i: usize = 0;
        proof {
            assert(input@.skip(0) =~= input@);
            assert(input@.take(0) =~= Seq::<u8>::empty());
        }
        while i < input.len()
            invariant
                i <= input@.len(),
                p == self@.0 && s == self@.1 && el0 == self@.2,
                total == wrap_lines_out(p, s, el0, input@, last),
                total.len() <= usize::MAX,
                n + wrap_lines_out(p, s, el, input@.skip(i as int), last).len() == total.len(),
                el == wrap_lines_next(el0, input@.take(i as int)),
            decreases input@.len() - i,
        {
            let b = input[i];
            proof {
                assert(input@.skip(i as int)[0] == input@[i as int]);
                assert(input@.skip(i as int).skip(1) =~= input@.skip(i + 1));
                assert(input@.take(i + 1).last() == input@[i as int]);
            }
            if b == 10u8 {
                if !el {
                    n += self.suffix.len();
                }
                n += 1;
                el = true;
            } else {
                if el {
                    n += self.prefix.len();
                }
                n += 1;
                el = false;
            }
            i += 1;
        }
        proof {
            assert(input@.skip(i as int) =~= Seq::<u8>::empty());
            assert(input@.take(i as int) =~= input@);
        }
        if last && !el {
            n += self.suffix.len();
        }
        (n, el)
    }
}

impl ByteTransform for WrapLines {
    type State = bool;

    open spec fn wf(m: Self::V) -> bool {
        true
    }

    open spec fn output(m: Self::V, input: Seq<u8>, last: bool) -> Seq<u8> {
        wrap_lines_out(m.0, m.1, m.2, input, last)
    }

    open spec fn advance(m: Self::V, input: Seq<u8>, last: bool) -> Self::V {
        (m.0, m.1, wrap_lines_next(m.2, input))
    }

    open spec fn restore(m: Self::V, s: bool) -> Self::V {
        (m.0, m.1, s)
    }

    proof fn lemma_advance_wf(m: Self::V, input: Seq<u8>, last: bool) {
    }

    proof fn lemma_restore(m: Self::V, input: Seq<u8>, last: bool, s: bool) {
    }

    fn transform(&mut self, input: &[u8], last: bool) -> (out: Vec<u8>) {
        let ghost p = self@.0;
        let ghost s = self@.1;
        let ghost el0 = self@.2;
        let ghost total = wrap_lines_out(p, s, el0, input@, last);
        let mut out: Vec<u8> = Vec::new();
        let mut el = self.empty_line;
        let mut i: usize = 0;
        proof {
            assert(input@.skip(0) =~= input@);
            assert(input@.take(0) =~= Seq::<u8>::empty());
            assert(Seq::<u8>::empty() + wrap_lines_out(p, s, el, input@, last) =~= wrap_lines_out(
                p,
                s,
                el,
                input@,
                last,
            ));
        }
        while i < input.len()
            invariant
                i <= input@.len(),
                p == self@.0 && s == self@.1 && el0 == self@.2,
                total == wrap_lines_out(p, s, el0, input@, last),
                out@ + wrap_lines_out(p, s, el, input@.skip(i as int), last) == total,
                el == wrap_lines_next(el0, input@.take(i as int)),
            decreases input@.len() - i,
        {
            let b = input[i];
            let ghost prev = out@;
            proof {
                assert(input@.skip(i as int)[0] == input@[i as int]);
                assert(input@.skip(i as int).skip(1) =~= input@.skip(i + 1));
                assert(input@.take(i + 1).last() == input@[i as int]);
            }
            let ghost piece: Seq<u8>;
            if b == 10u8 {
                if !el {
                    push_all(&mut out, self.suffix.as_slice());
                }
                out.push(b);
                proof {
                    piece = if el {
                        seq![b]
                    } else {
                        s + seq![b]
                    };
                    assert(out@ =~= prev + piece);
                }
                el = true;
            } else {
                if el {
                    push_all(&mut out, self.prefix.as_slice());
                }
                out.push(b);
                proof {
                    piece = if el {
                        p + seq![b]
                    } else {
                        seq![b]
                    };
                    assert(out@ =~= prev + piece);
                }
                el = false;
            }
            proof {
                let rest = wrap_lines_out(p, s, el, input@.skip(i + 1), last);
                assert((prev + piece) + rest =~= prev + (piece + rest));
            }
            i += 1;
        }
        proof {
            assert(input@.skip(i as int) =~= Seq::<u8>::empty());
            assert(input@.take(i as int) =~= input@);
        }
        if last && !el {
            push_all(&mut out, self.suffix.as_slice());
        }
        self.empty_line = el;
        out
    }

    fn transform_len(&mut self, input: &[u8], last: bool) -> (n: usize) {
        let r = self.calculate_len(input, last);
        self.empty_line = r.1;
        r.0
    }

    fn state(&self) -> (s: bool) {
        self.empty_line
    }

    fn with_state(&self, s: &bool) -> (t: Self) {
        WrapLines {
            prefix: copy_bytes(self.prefix.as_slice()),
            suffix: copy_bytes(self.suffix.as_slice()),
            empty_line: *s,
        }
    }
}

impl SplitTransform for WrapLines {
    proof fn lemma_split(m: Self::V, a: Seq<u8>, b: Seq<u8>, last: bool) {
        lemma_wrap_lines_split(m.0, m.1, m.2, a, b, last);
    }
}

} // verus!
