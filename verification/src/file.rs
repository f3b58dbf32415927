//! Byte sources addressed by absolute ranges, and their decoded views.

use vstd::prelude::*;

use core::ops::Range;

use crate::byte_transform::chunked::{ChunkedDecoder, ChunkedDecoderBuilder};
use crate::byte_transform::{ByteTransform, Decoder};
use crate::utils::chunk_ranges;
use crate::utils::copy_bytes;

verus! {

/// A byte source addressed by absolute half-open ranges.
pub trait FileSource: Sized {
    /// The source's bytes.
    spec fn contents(&self) -> Seq<u8>;

    /// The source's invariant; reads require it.
    spec fn inv(&self) -> bool;

    /// The size of the source in bytes.
    fn size(&self) -> (n: u64)
        requires
            self.inv(),
        ensures
            n == self.contents().len(),
    ;

    /// Reads the bytes of `range`.
    fn read(&self, range: Range<u64>) -> (v: Vec<u8>)
        requires
            self.inv(),
            range.start <= range.end,
            range.end <= self.contents().len(),
        ensures
            v@ == self.contents().subrange(range.start as int, range.end as int),
    ;

}

/// An in-memory buffer serves as a byte source directly.
impl FileSource for Vec<u8> {
    open spec fn contents(&self) -> Seq<u8> {
        self@
    }

    open spec fn inv(&self) -> bool {
        true
    }

    fn size(&self) -> (n: u64) {
        self.len() as u64
    }

    fn read(&self, range: Range<u64>) -> (v: Vec<u8>) {
        let _len: usize = self.len();
        let start = range.start as usize;
        let end = range.end as usize;
        copy_bytes(vstd::slice::slice_subrange(self.as_slice(), start, end))
    }
}

/// The size of the forward slices a source is walked in while building a
/// decoder.
pub const BUILD_CHUNK_SIZE: u64 = 32 * 1024;

/// The decoded output of walking `src` in `chunk`-byte slices through a
/// transform with abstract value `m`, threading its state and marking the
/// final slice; empty sources produce nothing.
pub open spec fn built_out<T: ByteTransform>(m: T::V, src: Seq<u8>, chunk: int) -> Seq<u8>
    decreases src.len(),
    when chunk >= 1
{
    if src.len() == 0 {
        Seq::empty()
    } else if src.len() <= chunk {
        T::output(m, src, true)
    } else {
        T::output(m, src.take(chunk), false) + built_out::<T>(
            T::advance(m, src.take(chunk), false),
            src.skip(chunk),
            chunk,
        )
    }
}

/// A source wrapped with a built decoder: a virtual file whose bytes are
/// the decoded view of the underlying source, readable by arbitrary ranges.
pub struct TransformedFileSource<F: FileSource, T: ByteTransform> {
    file: F,
    decoder: ChunkedDecoder<T>,
}

impl<F: FileSource, T: ByteTransform> TransformedFileSource<F, T> {
    /// The bytes of the underlying source.
    pub closed spec fn source_contents(&self) -> Seq<u8> {
        self.file.contents()
    }

    /// The abstract value of the transform the build started from.
    pub closed spec fn seed_model(&self) -> T::V {
        self.decoder.seed_model()
    }

    /// Walks the source in [`BUILD_CHUNK_SIZE`]-byte slices, feeds them
    /// through the transform, and wraps the source with the built decoder.
    #[verifier::rlimit(100)]
    pub fn new(file: F, transform: T) -> (r: Self)
        requires
            file.inv(),
            T::wf(transform@),
            file.contents().len() <= usize::MAX,
            built_out::<T>(transform@, file.contents(), BUILD_CHUNK_SIZE as int).len()
                <= usize::MAX,
        ensures
            r.inv(),
            r.contents() == built_out::<T>(transform@, file.contents(), BUILD_CHUNK_SIZE as int),
            r.source_contents() == file.contents(),
            r.seed_model() == transform@,
    {
        let ghost m0 = transform@;
        let ghost contents = file.contents();
        let ghost chunk = BUILD_CHUNK_SIZE as int;
        let mut builder = ChunkedDecoderBuilder::new_with_state(transform);
        let size = file.size();
        let ranges = chunk_ranges(size, BUILD_CHUNK_SIZE);
        let nr = ranges.len();
        let mut i: usize = 0;
        let ghost mut pos: int = 0;
        proof {
            assert(contents.skip(0) =~= contents);
        }
        while i < nr
            invariant
                file.inv(),
                contents == file.contents(),
                contents.len() == size,
                contents.len() <= usize::MAX,
                T::wf(m0),
                chunk == BUILD_CHUNK_SIZE as int,
                built_out::<T>(m0, contents, chunk).len() <= usize::MAX,
                nr == ranges@.len(),
                nr == 0 <==> size == 0,
                forall|k: int| 0 <= k < nr ==> (#[trigger] ranges@[k]).0 < ranges@[k].1 <= size,
                nr > 0 ==> ranges@[0].0 == 0 && ranges@[nr - 1].1 == size,
                forall|k: int| 0 <= k < nr - 1 ==> (#[trigger] ranges@[k]).1 == ranges@[k + 1].0,
                forall|k: int| 0 <= k < nr ==> ((#[trigger] ranges@[k]).2 <==> k == nr - 1),
                forall|k: int|
                    0 <= k < nr ==> (#[trigger] ranges@[k]).1 - ranges@[k].0 <= BUILD_CHUNK_SIZE
                        && (k < nr - 1 ==> ranges@[k].1 - ranges@[k].0 == BUILD_CHUNK_SIZE),
                i <= nr,
                pos == if i == 0 {
                    0int
                } else {
                    ranges@[i - 1].1 as int
                },
                i == nr ==> pos == size,
                builder.wf(),
                builder.seed_model() == m0,
                T::wf(builder.cur_model()),
                builder.finished() <==> (0 < i && i == nr),
                builder.fed() == contents.take(pos),
                builder.total_out() + built_out::<T>(builder.cur_model(), contents.skip(pos), chunk)
                    == built_out::<T>(m0, contents, chunk),
            decreases nr - i,
        {
            let r_i = ranges[i];
            let a = r_i.0;
            let b = r_i.1;
            let last = r_i.2;
            proof {
                if i > 0 {
                    assert(ranges@[i - 1].1 == ranges@[i as int].0);
                }
                assert(pos == a as int);
                let rest = contents.skip(pos);
                assert(rest.len() == size - pos);
                if last {
                    assert(b == size);
                    assert(rest.len() <= chunk);
                    assert(rest =~= contents.subrange(a as int, b as int));
                } else {
                    assert(ranges@[i as int].1 == ranges@[i + 1].0);
                    assert(b < size);
                    assert(b - a == BUILD_CHUNK_SIZE);
                    assert(rest.len() > chunk);
                    assert(rest.take(chunk) =~= contents.subrange(a as int, b as int));
                    assert(rest.skip(chunk) =~= contents.skip(b as int));
                }
            }
            let bytes = file.read(a..b);
            let ghost cur0 = builder.cur_model();
            let ghost tot0 = builder.total_out();
            let ghost out_piece = T::output(cur0, bytes@, last);
            proof {
                assert(out_piece.len() <= built_out::<T>(cur0, contents.skip(pos), chunk).len());
                T::lemma_advance_wf(cur0, bytes@, last);
            }
            builder.feed(bytes.as_slice(), last);
            proof {
                assert(contents.take(pos) + contents.subrange(a as int, b as int) =~= contents.take(
                    b as int,
                ));
                let cur1 = builder.cur_model();
                let tot1 = builder.total_out();
                if last {
                    assert(contents.skip(b as int).len() == 0);
                    assert(built_out::<T>(cur1, contents.skip(b as int), chunk)
                        == Seq::<u8>::empty());
                    assert(built_out::<T>(cur0, contents.skip(pos), chunk) == out_piece);
                    assert(tot1 + built_out::<T>(cur1, contents.skip(b as int), chunk) =~= tot0
                        + built_out::<T>(cur0, contents.skip(pos), chunk));
                } else {
                    assert(built_out::<T>(cur0, contents.skip(pos), chunk) == out_piece
                        + built_out::<T>(cur1, contents.skip(b as int), chunk));
                    assert(tot1 + built_out::<T>(cur1, contents.skip(b as int), chunk) =~= tot0
                        + built_out::<T>(cur0, contents.skip(pos), chunk));
                }
                pos = b as int;
            }
            i += 1;
        }
        proof {
            assert(contents.skip(pos) =~= Seq::<u8>::empty());
            assert(contents.take(pos) =~= contents);
            if nr > 0 {
                assert(builder.fed().len() == contents.len());
            }
        }
        let decoder = builder.build();
        TransformedFileSource { file, decoder }
    }
}

/// The decoded view is itself a byte source.
impl<F: FileSource, T: ByteTransform> FileSource for TransformedFileSource<F, T> {
    /// The decoded bytes of the underlying source.
    closed spec fn contents(&self) -> Seq<u8> {
        self.decoder.out_seq()
    }

    closed spec fn inv(&self) -> bool {
        &&& self.file.inv()
        &&& self.decoder.wf()
        &&& self.decoder.seed_ok()
        &&& self.decoder.src_seq() == self.file.contents()
    }

    fn size(&self) -> (n: u64) {
        self.decoder.output_size()
    }

    fn read(&self, range: Range<u64>) -> (v: Vec<u8>) {
        let start = range.start;
        let end = range.end;
        let src_range = self.decoder.calc_input_range(start..end);
        let src_start = src_range.start;
        let src_bytes = self.file.read(src_range);
        let v = self.decoder.decode_range(src_bytes.as_slice(), src_start, start..end);
        proof {
            if start == end {
                assert(self.contents().subrange(start as int, end as int) =~= Seq::<u8>::empty());
            }
            assert(v@ == self.contents().subrange(start as int, end as int));
        }
        v
    }
}

} // verus!
