//! A transform that strips line break bytes from the stream.

use vstd::prelude::*;

use super::{ByteTransform, SplitTransform};

verus! {

/// `input` with every `\n` and `\r` byte removed.
pub open spec fn stripped(input: Seq<u8>) -> Seq<u8>
    decreases input.len(),
{
    if input.len() == 0 {
        Seq::empty()
    } else if input[0] == 10u8 || input[0] == 13u8 {
        stripped(input.skip(1))
    } else {
        seq![input[0]] + stripped(input.skip(1))
    }
}

pub proof fn lemma_stripped_add(a: Seq<u8>, b: Seq<u8>)
    ensures
        stripped(a + b) == stripped(a) + stripped(b),
    decreases a.len(),
{
    if a.len() == 0 {
        assert(a + b =~= b);
        assert(stripped(a) + stripped(b) =~= stripped(b));
    } else {
        assert((a + b).skip(1) =~= a.skip(1) + b);
        lemma_stripped_add(a.skip(1), b);
        if a[0] == 10u8 || a[0] == 13u8 {
        } else {
            assert(seq![a[0]] + (stripped(a.skip(1)) + stripped(b)) =~= (seq![a[0]] + stripped(
                a.skip(1),
            )) + stripped(b));
        }
    }
}

pub proof fn lemma_stripped_len(input: Seq<u8>)
    ensures
        stripped(input).len() <= input.len(),
    decreases input.len(),
{
    if input.len() > 0 {
        lemma_stripped_len(input.skip(1));
    }
}

/// Removes all line break characters (`\n` and `\r`) from the input stream.
///
/// This is a stateless transform: it filters out newline and carriage
/// return bytes, joining all lines into a single continuous stream.
#[derive(Clone, Copy, Debug)]
pub struct RemoveLinebreaks;

impl Default for RemoveLinebreaks {
    fn default() -> (t: Self)
        ensures
            t == RemoveLinebreaks,
    {
        RemoveLinebreaks
    }
}

impl View for RemoveLinebreaks {
    type V = ();

    open spec fn view(&self) -> () {
        ()
    }
}

impl ByteTransform for RemoveLinebreaks {
    type State = ();

    open spec fn wf(m: ()) -> bool {
        true
    }

    open spec fn output(m: (), input: Seq<u8>, last: bool) -> Seq<u8> {
        stripped(input)
    }

    open spec fn advance(m: (), input: Seq<u8>, last: bool) -> () {
        ()
    }

    open spec fn restore(m: (), s: ()) -> () {
        ()
    }

    proof fn lemma_advance_wf(m: (), input: Seq<u8>, last: bool) {
    }

    proof fn lemma_restore(m: (), input: Seq<u8>, last: bool, s: ()) {
    }

    fn transform(&mut self, input: &[u8], last: bool) -> (out: Vec<u8>) {
        let mut out: Vec<u8> = Vec::new();
        let mut i: usize = 0;
        proof {
            assert(input@.skip(0) =~= input@);
        }
        while i < input.len()
            invariant
                i <= input@.len(),
                out@ + stripped(input@.skip(i as int)) == stripped(input@),
            decreases input@.len() - i,
        {
            let b = input[i];
            proof {
                assert(input@.skip(i as int).len() > 0);
                assert(input@.skip(i as int)[0] == input@[i as int]);
                assert(input@.skip(i as int).skip(1) =~= input@.skip(i + 1));
            }
            if b != 10u8 && b != 13u8 {
                out.push(b);
                proof {
                    assert(out@ + stripped(input@.skip(i + 1)) =~= (out@.drop_last() + seq![b])
                        + stripped(input@.skip(i + 1)));
                    assert(out@.drop_last() + (seq![b] + stripped(input@.skip(i + 1))) =~= (
                    out@.drop_last() + seq![b]) + stripped(input@.skip(i + 1)));
                }
            }
            i += 1;
        }
        proof {
            assert(input@.skip(i as int) =~= Seq::<u8>::empty());
            assert(out@ + stripped(input@.skip(i as int)) =~= out@);
        }
        out
    }

    fn transform_len(&mut self, input: &[u8], last: bool) -> (n: usize) {
        let mut n: usize = 0;
        let mut i: usize = 0;
        proof {
            lemma_stripped_len(input@);
            assert(input@.skip(0) =~= input@);
        }
        while i < input.len()
            invariant
                i <= input@.len(),
                n + stripped(input@.skip(i as int)).len() == stripped(input@).len(),
                stripped(input@).len() <= input@.len(),
            decreases input@.len() - i,
        {
            let b = input[i];
            proof {
                assert(input@.skip(i as int).len() > 0);
                assert(input@.skip(i as int)[0] == input@[i as int]);
                assert(input@.skip(i as int).skip(1) =~= input@.skip(i + 1));
            }
            if b != 10u8 && b != 13u8 {
                n += 1;
            }
            i += 1;
        }
        proof {
            assert(input@.skip(i as int) =~= Seq::<u8>::empty());
        }
        n
    }

    fn state(&self) -> (s: ()) {
    }

    fn with_state(&self, s: &()) -> (t: Self) {
        RemoveLinebreaks
    }
}

impl SplitTransform for RemoveLinebreaks {
    proof fn lemma_split(m: (), a: Seq<u8>, b: Seq<u8>, last: bool) {
        lemma_stripped_add(a, b);
    }
}

} // verus!
