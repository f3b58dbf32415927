//! Random-access decoding through a precomputed chunk map.
//!
//! A [`ChunkedDecoderBuilder`] is fed the source in order, slice by slice,
//! and records for every slice the transform state at its start together
//! with the matching source and output ranges. The finished
//! [`ChunkedDecoder`] then serves any decoded range by restoring the saved
//! state of the first chunk that intersects the range and replaying the
//! transform over just the chunks it covers.

use vstd::prelude::*;

use core::ops::Range;

use vstd::slice::slice_subrange;

use super::ByteTransform;
use super::Decoder;
use super::SplitTransform;
use crate::utils::push_all;

verus! {

/// One entry of the chunk map: the transform state at the start of a
/// source chunk, with the chunk's source and output ranges in absolute
/// half-open byte coordinates.
struct ChunkMapping<T: ByteTransform> {
    /// Transform state at the start of this chunk.
    state: T::State,
    src_start: u64,
    src_end: u64,
    dst_start: u64,
    dst_end: u64,
}

/// The abstract transform value at the start of chunk `i`: the seed with
/// the recorded snapshot restored.
spec fn chunk_model<T: ByteTransform>(seed: T::V, maps: Seq<ChunkMapping<T>>, i: int) -> T::V {
    T::restore(seed, maps[i].state)
}

/// The source bytes of chunk `i`.
spec fn chunk_slice<T: ByteTransform>(src: Seq<u8>, maps: Seq<ChunkMapping<T>>, i: int) -> Seq<
    u8,
> {
    src.subrange(maps[i].src_start as int, maps[i].src_end as int)
}

/// The `last` flag chunk `i` is processed with: set exactly when the map is
/// finished (`fin`) and the chunk reaches the end of the source.
spec fn chunk_flag<T: ByteTransform>(
    maps: Seq<ChunkMapping<T>>,
    i: int,
    end_pos: int,
    fin: bool,
) -> bool {
    fin && maps[i].src_end == end_pos
}

/// The decoded bytes chunk `i` contributes.
spec fn chunk_out<T: ByteTransform>(
    seed: T::V,
    src: Seq<u8>,
    maps: Seq<ChunkMapping<T>>,
    end_pos: int,
    fin: bool,
    i: int,
) -> Seq<u8> {
    T::output(
        chunk_model(seed, maps, i),
        chunk_slice(src, maps, i),
        chunk_flag(maps, i, end_pos, fin),
    )
}

/// The decoded bytes of the first `k` chunks, concatenated.
spec fn prefix_out<T: ByteTransform>(
    seed: T::V,
    src: Seq<u8>,
    maps: Seq<ChunkMapping<T>>,
    end_pos: int,
    fin: bool,
    k: int,
) -> Seq<u8>
    decreases k,
{
    if k <= 0 {
        Seq::empty()
    } else {
        prefix_out(seed, src, maps, end_pos, fin, k - 1) + chunk_out(
            seed,
            src,
            maps,
            end_pos,
            fin,
            k - 1,
        )
    }
}

/// Well-formedness of a chunk map over source `src`: the source ranges
/// partition `[0, end_pos)` without gaps and without empty chunks, the
/// output ranges partition `[0, end_out)` likewise (empty output ranges are
/// allowed), each recorded state restores to the transform value reached by
/// processing all prior chunks in order from the seed, and each output
/// range is exactly as long as the bytes its chunk produces.
spec fn maps_wf<T: ByteTransform>(
    seed: T::V,
    src: Seq<u8>,
    maps: Seq<ChunkMapping<T>>,
    end_pos: int,
    end_out: int,
    fin: bool,
) -> bool {
    let n = maps.len() as int;
    &&& (n == 0 ==> end_pos == 0 && end_out == 0)
    &&& (n > 0 ==> maps[0].src_start == 0 && maps[0].dst_start == 0 && maps[n - 1].src_end
        == end_pos && maps[n - 1].dst_end == end_out)
    &&& (forall|i: int|
        0 <= i < n ==> (#[trigger] maps[i]).src_start < maps[i].src_end && maps[i].dst_start
            <= maps[i].dst_end)
    &&& (forall|i: int, j: int|
        #![trigger maps[i], maps[j]]
        0 <= i && j == i + 1 && j < n ==> maps[j].src_start == maps[i].src_end && maps[j].dst_start
            == maps[i].dst_end)
    &&& (n > 0 ==> chunk_model(seed, maps, 0) == seed)
    &&& (forall|i: int, j: int|
        #![trigger chunk_model(seed, maps, i), chunk_model(seed, maps, j)]
        0 <= i && j == i + 1 && j < n ==> chunk_model(seed, maps, j) == T::advance(
            chunk_model(seed, maps, i),
            chunk_slice(src, maps, i),
            chunk_flag(maps, i, end_pos, fin),
        ))
    &&& (forall|i: int|
        0 <= i < n ==> (#[trigger] chunk_out(seed, src, maps, end_pos, fin, i)).len() == maps[
            i
        ].dst_end - maps[i].dst_start)
}

/// Within a well-formed map, range endpoints grow with the chunk index and
/// stay within the covered span.
proof fn lemma_ends_monotone<T: ByteTransform>(
    seed: T::V,
    src: Seq<u8>,
    maps: Seq<ChunkMapping<T>>,
    end_pos: int,
    end_out: int,
    fin: bool,
    i: int,
    j: int,
)
    requires
        maps_wf(seed, src, maps, end_pos, end_out, fin),
        0 <= i <= j < maps.len(),
    ensures
        maps[i].src_end <= maps[j].src_end,
        maps[i].dst_end <= maps[j].dst_end,
        maps[i].src_start <= maps[j].src_start,
        maps[i].dst_start <= maps[j].dst_start,
    decreases j - i,
{
    if i < j {
        lemma_ends_monotone(seed, src, maps, end_pos, end_out, fin, i, j - 1);
    }
}

/// Within a well-formed map, every range lies inside the covered span.
proof fn lemma_ends_bounded<T: ByteTransform>(
    seed: T::V,
    src: Seq<u8>,
    maps: Seq<ChunkMapping<T>>,
    end_pos: int,
    end_out: int,
    fin: bool,
    i: int,
)
    requires
        maps_wf(seed, src, maps, end_pos, end_out, fin),
        0 <= i < maps.len(),
    ensures
        maps[i].src_end <= end_pos,
        maps[i].dst_end <= end_out,
{
    let n = maps.len() as int;
    lemma_ends_monotone(seed, src, maps, end_pos, end_out, fin, i, n - 1);
}

/// Two chunk maps that agree on their first `k` entries, slices and flags
/// produce the same first `k` outputs.
proof fn lemma_prefix_out_stable<T: ByteTransform>(
    seed: T::V,
    src1: Seq<u8>,
    maps1: Seq<ChunkMapping<T>>,
    end1: int,
    fin1: bool,
    src2: Seq<u8>,
    maps2: Seq<ChunkMapping<T>>,
    end2: int,
    fin2: bool,
    k: int,
)
    requires
        0 <= k <= maps1.len(),
        k <= maps2.len(),
        forall|j: int| 0 <= j < k ==> maps2[j] == maps1[j],
        forall|j: int|
            0 <= j < k ==> chunk_slice(src2, maps2, j) == chunk_slice(src1, maps1, j),
        forall|j: int|
            0 <= j < k ==> chunk_flag(maps2, j, end2, fin2) == chunk_flag(maps1, j, end1, fin1),
    ensures
        prefix_out(seed, src2, maps2, end2, fin2, k) == prefix_out(seed, src1, maps1, end1, fin1, k),
    decreases k,
{
    if k > 0 {
        lemma_prefix_out_stable(seed, src1, maps1, end1, fin1, src2, maps2, end2, fin2, k - 1);
        assert(chunk_out(seed, src2, maps2, end2, fin2, k - 1) == chunk_out(
            seed,
            src1,
            maps1,
            end1,
            fin1,
            k - 1,
        ));
    }
}

/// The concatenated length of the first `k` chunk outputs is the output
/// position the `k`-th chunk starts at.
proof fn lemma_prefix_out_len<T: ByteTransform>(
    seed: T::V,
    src: Seq<u8>,
    maps: Seq<ChunkMapping<T>>,
    end_pos: int,
    end_out: int,
    fin: bool,
    k: int,
)
    requires
        maps_wf(seed, src, maps, end_pos, end_out, fin),
        0 <= k <= maps.len(),
    ensures
        prefix_out(seed, src, maps, end_pos, fin, k).len() == if k == 0 {
            0int
        } else {
            maps[k - 1].dst_end as int
        },
    decreases k,
{
    if k > 0 {
        lemma_prefix_out_len(seed, src, maps, end_pos, end_out, fin, k - 1);
    }
}

/// Appending chunk `j`'s output, clipped to the requested output range,
/// extends a decoded buffer by exactly the next slice of the full output.
proof fn lemma_clip_append<T: ByteTransform>(
    seed: T::V,
    src: Seq<u8>,
    maps: Seq<ChunkMapping<T>>,
    end_pos: int,
    end_out: int,
    fin: bool,
    j: int,
    start: int,
    end: int,
    prev: Seq<u8>,
    piece: Seq<u8>,
)
    requires
        maps_wf(seed, src, maps, end_pos, end_out, fin),
        0 <= j < maps.len(),
        piece == chunk_out(seed, src, maps, end_pos, fin, j),
        0 <= start < end <= end_out,
        maps[j].dst_start < end,
        start < maps[j].dst_end,
        prev == prefix_out(seed, src, maps, end_pos, fin, maps.len() as int).subrange(
            start,
            if maps[j].dst_start as int >= start {
                maps[j].dst_start as int
            } else {
                start
            },
        ),
    ensures
        ({
            let clip_lo = if start > maps[j].dst_start {
                start - maps[j].dst_start
            } else {
                0int
            };
            let clip_hi = if end < maps[j].dst_end {
                end - maps[j].dst_start
            } else {
                maps[j].dst_end - maps[j].dst_start
            };
            &&& 0 <= clip_lo <= clip_hi <= piece.len()
            &&& prev + piece.subrange(clip_lo, clip_hi) == prefix_out(
                seed,
                src,
                maps,
                end_pos,
                fin,
                maps.len() as int,
            ).subrange(
                start,
                if maps[j].dst_end as int > end {
                    end
                } else {
                    maps[j].dst_end as int
                },
            )
        }),
{
    let full = prefix_out(seed, src, maps, end_pos, fin, maps.len() as int);
    lemma_chunk_out_slice(seed, src, maps, end_pos, end_out, fin, j);
    lemma_prefix_out_len(seed, src, maps, end_pos, end_out, fin, maps.len() as int);
    lemma_ends_bounded(seed, src, maps, end_pos, end_out, fin, j);
    let ds = maps[j].dst_start as int;
    let de = maps[j].dst_end as int;
    assert(full.len() == end_out);
    assert(piece.len() == de - ds);
    assert(piece == full.subrange(ds, de));
    let clip_lo = if start > ds {
        start - ds
    } else {
        0int
    };
    let clip_hi = if end < de {
        end - ds
    } else {
        de - ds
    };
    let lo = if ds >= start {
        ds
    } else {
        start
    };
    let hi = if de > end {
        end
    } else {
        de
    };
    assert(piece.subrange(clip_lo, clip_hi) =~= full.subrange(lo, hi));
    assert(prev + piece.subrange(clip_lo, clip_hi) =~= full.subrange(start, hi));
}

/// The first chunk index at or after `i` whose output range ends past
/// `pos`: the chunk containing output position `pos` when one exists.
spec fn find_chunk<T: ByteTransform>(maps: Seq<ChunkMapping<T>>, pos: int, i: int) -> int
    decreases maps.len() - i,
    when 0 <= i <= maps.len()
{
    if i >= maps.len() {
        i
    } else if pos < maps[i].dst_end {
        i
    } else {
        find_chunk(maps, pos, i + 1)
    }
}

/// For a position inside the covered output span, the found chunk contains
/// the position and every chunk skipped over ends at or before it.
#[verifier::rlimit(60)]
proof fn lemma_find_chunk<T: ByteTransform>(
    seed: T::V,
    src: Seq<u8>,
    maps: Seq<ChunkMapping<T>>,
    end_pos: int,
    end_out: int,
    fin: bool,
    pos: int,
    i: int,
)
    requires
        maps_wf(seed, src, maps, end_pos, end_out, fin),
        0 <= i < maps.len(),
        maps[i].dst_start <= pos < end_out,
    ensures
        ({
            let k = find_chunk(maps, pos, i);
            &&& i <= k < maps.len()
            &&& maps[k].dst_start <= pos < maps[k].dst_end
            &&& forall|j: int| i <= j < k ==> (#[trigger] maps[j]).dst_end <= pos
        }),
    decreases maps.len() - i,
{
    let n = maps.len() as int;
    if pos < maps[i].dst_end {
    } else {
        if i == n - 1 {
            assert(maps[n - 1].dst_end == end_out);
            assert(false);
        }
        lemma_find_chunk(seed, src, maps, end_pos, end_out, fin, pos, i + 1);
    }
}

/// At most one chunk's output range contains a given position.
#[verifier::rlimit(60)]
proof fn lemma_chunk_unique<T: ByteTransform>(
    seed: T::V,
    src: Seq<u8>,
    maps: Seq<ChunkMapping<T>>,
    end_pos: int,
    end_out: int,
    fin: bool,
    pos: int,
    i: int,
    j: int,
)
    requires
        maps_wf(seed, src, maps, end_pos, end_out, fin),
        0 <= i < maps.len(),
        0 <= j < maps.len(),
        maps[i].dst_start <= pos < maps[i].dst_end,
        maps[j].dst_start <= pos < maps[j].dst_end,
    ensures
        i == j,
{
    if i < j {
        lemma_ends_monotone(seed, src, maps, end_pos, end_out, fin, i, j - 1);
        assert(maps[j].dst_start == maps[j - 1].dst_end);
    }
    if j < i {
        lemma_ends_monotone(seed, src, maps, end_pos, end_out, fin, j, i - 1);
        assert(maps[i].dst_start == maps[i - 1].dst_end);
    }
}

/// Shorter chunk-output concatenations are prefixes of longer ones.
proof fn lemma_prefix_out_extends<T: ByteTransform>(
    seed: T::V,
    src: Seq<u8>,
    maps: Seq<ChunkMapping<T>>,
    end_pos: int,
    end_out: int,
    fin: bool,
    k: int,
    l: int,
)
    requires
        maps_wf(seed, src, maps, end_pos, end_out, fin),
        0 <= k <= l <= maps.len(),
    ensures
        prefix_out(seed, src, maps, end_pos, fin, k).len() <= prefix_out(
            seed,
            src,
            maps,
            end_pos,
            fin,
            l,
        ).len(),
        prefix_out(seed, src, maps, end_pos, fin, l).subrange(
            0,
            prefix_out(seed, src, maps, end_pos, fin, k).len() as int,
        ) == prefix_out(seed, src, maps, end_pos, fin, k),
    decreases l,
{
    let pk = prefix_out(seed, src, maps, end_pos, fin, k);
    let pl = prefix_out(seed, src, maps, end_pos, fin, l);
    if k == l {
        assert(pl.subrange(0, pk.len() as int) =~= pk);
    } else {
        lemma_prefix_out_extends(seed, src, maps, end_pos, end_out, fin, k, l - 1);
        let pl1 = prefix_out(seed, src, maps, end_pos, fin, l - 1);
        assert(pl.subrange(0, pl1.len() as int) =~= pl1);
        assert(pl.subrange(0, pk.len() as int) =~= pl1.subrange(0, pk.len() as int));
    }
}

/// Each chunk's output is exactly its output range within the full decoded
/// output.
proof fn lemma_chunk_out_slice<T: ByteTransform>(
    seed: T::V,
    src: Seq<u8>,
    maps: Seq<ChunkMapping<T>>,
    end_pos: int,
    end_out: int,
    fin: bool,
    k: int,
)
    requires
        maps_wf(seed, src, maps, end_pos, end_out, fin),
        0 <= k < maps.len(),
    ensures
        chunk_out(seed, src, maps, end_pos, fin, k) == prefix_out(
            seed,
            src,
            maps,
            end_pos,
            fin,
            maps.len() as int,
        ).subrange(maps[k].dst_start as int, maps[k].dst_end as int),
{
    let n = maps.len() as int;
    lemma_prefix_out_len(seed, src, maps, end_pos, end_out, fin, k);
    lemma_prefix_out_len(seed, src, maps, end_pos, end_out, fin, k + 1);
    lemma_prefix_out_extends(seed, src, maps, end_pos, end_out, fin, k + 1, n);
    let pk1 = prefix_out(seed, src, maps, end_pos, fin, k + 1);
    let pn = prefix_out(seed, src, maps, end_pos, fin, n);
    assert(pk1.len() == maps[k].dst_end as int);
    assert(prefix_out(seed, src, maps, end_pos, fin, k).len() == maps[k].dst_start as int);
    assert(chunk_out(seed, src, maps, end_pos, fin, k) =~= pk1.subrange(
        maps[k].dst_start as int,
        maps[k].dst_end as int,
    ));
    assert(pk1.subrange(maps[k].dst_start as int, maps[k].dst_end as int) =~= pn.subrange(
        maps[k].dst_start as int,
        maps[k].dst_end as int,
    ));
}

/// A decoder that serves arbitrary decoded byte ranges by replaying a
/// transform over precomputed chunk boundary mappings. Immutable once
/// built; the stored transform is only a template that chunk states are
/// restored into.
pub struct ChunkedDecoder<T: ByteTransform> {
    transform: T,
    /// Total size of the source in bytes.
    input_size: u64,
    /// Total size of the decoded output in bytes.
    output_size: u64,
    /// Mapping from source chunks to their decoded ranges.
    chunk_mappings: Vec<ChunkMapping<T>>,
    /// The source bytes the chunk map was built over.
    src: Ghost<Seq<u8>>,
    /// The abstract value of the transform the build started from.
    seed: Ghost<T::V>,
}

impl<T: ByteTransform> ChunkedDecoder<T> {
    /// The abstract transform value the build started from.
    pub closed spec fn seed_model(&self) -> T::V {
        self.seed@
    }

    /// The index of the chunk whose output range contains position `pos`.
    spec fn chunk_at(&self, pos: int) -> int {
        find_chunk(self.chunk_mappings@, pos, 0)
    }

    /// Finds the index of the chunk whose output range contains `pos`.
    fn find_start_chunk(&self, pos: u64) -> (i: usize)
        requires
            self.wf(),
            pos < self.output_size,
        ensures
            i < self.chunk_mappings@.len(),
            self.chunk_mappings@[i as int].dst_start <= pos < self.chunk_mappings@[i as int].dst_end,
    {
        let ghost seed = self.seed@;
        let ghost srcg = self.src@;
        let ghost maps = self.chunk_mappings@;
        let ghost end_pos = self.input_size as int;
        let ghost end_out = self.output_size as int;
        let n = self.chunk_mappings.len();
        let mut i: usize = 0;
        while i < n && self.chunk_mappings[i].dst_end <= pos
            invariant
                self.wf(),
                pos < self.output_size,
                maps == self.chunk_mappings@,
                seed == self.seed@,
                srcg == self.src@,
                end_pos == self.input_size as int,
                end_out == self.output_size as int,
                n == maps.len(),
                i <= n,
                forall|j: int| 0 <= j < i ==> (#[trigger] maps[j]).dst_end <= pos,
            decreases n - i,
        {
            i += 1;
        }
        proof {
            if i == n {
                assert(maps[n - 1].dst_end == end_out);
                assert(false);
            }
            if i > 0 {
                assert(maps[i as int].dst_start == maps[i as int - 1].dst_end);
            }
        }
        i
    }
}

impl<T: ByteTransform> Decoder for ChunkedDecoder<T> {
    /// The source bytes this decoder's chunk map was built over.
    closed spec fn src_seq(&self) -> Seq<u8> {
        self.src@
    }

    /// Whether the seed transform's configuration is well formed.
    closed spec fn seed_ok(&self) -> bool {
        T::wf(self.seed@)
    }

    /// The full decoded output: the concatenation of every chunk's bytes.
    closed spec fn out_seq(&self) -> Seq<u8> {
        prefix_out(
            self.seed@,
            self.src@,
            self.chunk_mappings@,
            self.input_size as int,
            true,
            self.chunk_mappings@.len() as int,
        )
    }

    /// The decoder's invariant, established by [`ChunkedDecoderBuilder::build`].
    closed spec fn wf(&self) -> bool {
        &&& self.src@.len() == self.input_size
        &&& maps_wf(
            self.seed@,
            self.src@,
            self.chunk_mappings@,
            self.input_size as int,
            self.output_size as int,
            true,
        )
        &&& forall|s: T::State|
            #[trigger] T::restore(self.transform@, s) == T::restore(self.seed@, s)
    }

    /// The minimal source range whose bytes suffice to decode output range
    /// `[start, end)`: from the start of the chunk containing `start` to
    /// the end of the chunk containing the last requested byte. An empty
    /// request (after clamping `end` to the output size) needs no bytes.
    closed spec fn input_range_for(&self, start: int, end: int) -> (int, int) {
        let len = self.out_seq().len() as int;
        let end_c = if end > len {
            len
        } else {
            end
        };
        if !(0 <= start < len) || end_c <= start {
            (0, 0)
        } else {
            (
                self.chunk_mappings@[self.chunk_at(start)].src_start as int,
                self.chunk_mappings@[self.chunk_at(end_c - 1)].src_end as int,
            )
        }
    }

    /// Translates a decoded range to the minimal source range whose bytes
    /// suffice to decode it.
    fn calc_input_range(&self, output_range: Range<u64>) -> (r: Range<u64>) {
        let ghost seed = self.seed@;
        let ghost srcg = self.src@;
        let ghost maps = self.chunk_mappings@;
        let ghost end_pos = self.input_size as int;
        let ghost end_out = self.output_size as int;
        proof {
            lemma_prefix_out_len(seed, srcg, maps, end_pos, end_out, true, maps.len() as int);
        }
        let start = output_range.start;
        let end = if output_range.end > self.output_size {
            self.output_size
        } else {
            output_range.end
        };
        if start >= self.output_size || end <= start {
            return 0u64..0u64;
        }
        let i = self.find_start_chunk(start);
        let j = self.find_start_chunk(end - 1);
        proof {
            lemma_find_chunk(seed, srcg, maps, end_pos, end_out, true, start as int, 0);
            lemma_chunk_unique(
                seed,
                srcg,
                maps,
                end_pos,
                end_out,
                true,
                start as int,
                i as int,
                self.chunk_at(start as int),
            );
            lemma_find_chunk(seed, srcg, maps, end_pos, end_out, true, end - 1, 0);
            lemma_chunk_unique(
                seed,
                srcg,
                maps,
                end_pos,
                end_out,
                true,
                end - 1,
                j as int,
                self.chunk_at(end - 1),
            );
            if j < i {
                lemma_ends_monotone(seed, srcg, maps, end_pos, end_out, true, j as int, i as int - 1);
                assert(maps[i as int].dst_start == maps[i as int - 1].dst_end);
                assert(false);
            }
            lemma_ends_monotone(seed, srcg, maps, end_pos, end_out, true, i as int, j as int);
            lemma_ends_bounded(seed, srcg, maps, end_pos, end_out, true, j as int);
        }
        let a = self.chunk_mappings[i].src_start;
        let b = self.chunk_mappings[j].src_end;
        a..b
    }

    /// Decodes the output range `dst_range`, given source bytes starting at
    /// absolute offset `src_offset` that cover the whole source range
    /// [`Decoder::input_range_for`] gives for the request.
    #[verifier::rlimit(100)]
    fn decode_range(&self, src: &[u8], src_offset: u64, dst_range: Range<u64>) -> (out: Vec<u8>) {
        let ghost seed = self.seed@;
        let ghost srcg = self.src@;
        let ghost maps = self.chunk_mappings@;
        let ghost end_pos = self.input_size as int;
        let ghost end_out = self.output_size as int;
        proof {
            lemma_prefix_out_len(seed, srcg, maps, end_pos, end_out, true, maps.len() as int);
        }
        let start = dst_range.start;
        let end = if dst_range.end > self.output_size {
            self.output_size
        } else {
            dst_range.end
        };
        let mut out: Vec<u8> = Vec::new();
        if start >= self.output_size || end <= start {
            return out;
        }
        let s_idx = self.find_start_chunk(start);
        let ghost e_idx = self.chunk_at(end as int - 1);
        proof {
            lemma_find_chunk(seed, srcg, maps, end_pos, end_out, true, start as int, 0);
            lemma_chunk_unique(
                seed,
                srcg,
                maps,
                end_pos,
                end_out,
                true,
                start as int,
                s_idx as int,
                self.chunk_at(start as int),
            );
            lemma_find_chunk(seed, srcg, maps, end_pos, end_out, true, end as int - 1, 0);
        }
        let n = self.chunk_mappings.len();
        let src_len: usize = src.len();
        let mut t = self.transform.with_state(&self.chunk_mappings[s_idx].state);
        let mut j = s_idx;
        while j < n && self.chunk_mappings[j].dst_start < end
            invariant
                self.wf(),
                T::wf(seed),
                seed == self.seed@,
                srcg == self.src@,
                maps == self.chunk_mappings@,
                end_pos == self.input_size as int,
                end_out == self.output_size as int,
                n == maps.len(),
                self.out_seq().len() == end_out,
                start < end,
                end <= end_out,
                src_len == src@.len(),
                src_offset + src@.len() <= srcg.len(),
                src@ == srcg.subrange(src_offset as int, src_offset + src@.len()),
                s_idx < n,
                maps[s_idx as int].dst_start <= start < maps[s_idx as int].dst_end,
                0 <= e_idx < n,
                maps[e_idx].dst_start <= end - 1 < maps[e_idx].dst_end,
                src_offset <= maps[s_idx as int].src_start,
                maps[e_idx].src_end <= src_offset + src@.len(),
                s_idx <= j <= n,
                j < n ==> t@ == chunk_model(seed, maps, j as int),
                out@ == self.out_seq().subrange(
                    start as int,
                    if j == s_idx {
                        start as int
                    } else if maps[j as int - 1].dst_end > end {
                        end as int
                    } else {
                        maps[j as int - 1].dst_end as int
                    },
                ),
            decreases n - j,
        {
            proof {
                if j as int > e_idx {
                    lemma_ends_monotone(seed, srcg, maps, end_pos, end_out, true, e_idx, j as int - 1);
                    assert(maps[j as int].dst_start == maps[j as int - 1].dst_end);
                    assert(false);
                }
                lemma_ends_monotone(seed, srcg, maps, end_pos, end_out, true, s_idx as int, j as int);
                lemma_ends_monotone(seed, srcg, maps, end_pos, end_out, true, j as int, e_idx);
                T::lemma_restore(seed, Seq::<u8>::empty(), false, maps[j as int].state);
            }
            let m = &self.chunk_mappings[j];
            let s_lo = (m.src_start - src_offset) as usize;
            let s_hi = (m.src_end - src_offset) as usize;
            let last = m.src_end == self.input_size;
            let piece = t.transform(slice_subrange(src, s_lo, s_hi), last);
            let piece_len: usize = piece.len();
            proof {
                assert(src@.subrange(s_lo as int, s_hi as int) =~= chunk_slice(srcg, maps, j as int));
                assert(piece@ == chunk_out(seed, srcg, maps, end_pos, true, j as int));
                if j > s_idx {
                    lemma_ends_monotone(
                        seed,
                        srcg,
                        maps,
                        end_pos,
                        end_out,
                        true,
                        s_idx as int,
                        j as int - 1,
                    );
                    assert(maps[j as int].dst_start == maps[j as int - 1].dst_end);
                }
                lemma_clip_append(
                    seed,
                    srcg,
                    maps,
                    end_pos,
                    end_out,
                    true,
                    j as int,
                    start as int,
                    end as int,
                    out@,
                    piece@,
                );
                assert(piece_len == maps[j as int].dst_end - maps[j as int].dst_start);
                assert(start > m.dst_start ==> start - m.dst_start <= piece_len);
                assert(end < m.dst_end ==> end - m.dst_start <= piece_len);
            }
            let clip_lo = if start > m.dst_start {
                (start - m.dst_start) as usize
            } else {
                0usize
            };
            let clip_hi = if end < m.dst_end {
                (end - m.dst_start) as usize
            } else {
                piece_len
            };
            proof {
                assert(clip_lo as int == if start > m.dst_start {
                    start - m.dst_start
                } else {
                    0int
                });
                assert(clip_hi as int == if end < m.dst_end {
                    end - m.dst_start
                } else {
                    maps[j as int].dst_end - maps[j as int].dst_start
                });
            }
            push_all(&mut out, slice_subrange(piece.as_slice(), clip_lo, clip_hi));
            j += 1;
        }
        proof {
            if j < n {
                assert(maps[j as int].dst_start >= end);
                if j == s_idx {
                    assert(false);
                }
            } else {
                assert(maps[n - 1].dst_end == end_out);
            }
        }
        out
    }

    /// The total size of the decoded output in bytes.
    fn output_size(&self) -> (n: u64) {
        proof {
            lemma_prefix_out_len(
                self.seed@,
                self.src@,
                self.chunk_mappings@,
                self.input_size as int,
                self.output_size as int,
                true,
                self.chunk_mappings@.len() as int,
            );
        }
        self.output_size
    }
}

/// Builds a [`ChunkedDecoder`] from one forward pass over the source: feed
/// every slice in order, marking the final one, then call `build`.
pub struct ChunkedDecoderBuilder<T: ByteTransform> {
    transform: T,
    src_pos: usize,
    dst_pos: usize,
    mappings: Vec<ChunkMapping<T>>,
    /// The source bytes fed so far.
    src: Ghost<Seq<u8>>,
    /// The abstract value of the seed transform.
    seed: Ghost<T::V>,
    /// Whether a slice marked last has been fed.
    done: Ghost<bool>,
}

impl<T: ByteTransform> ChunkedDecoderBuilder<T> {
    /// The source bytes fed so far.
    pub closed spec fn fed(&self) -> Seq<u8> {
        self.src@
    }

    /// The abstract transform value the builder was seeded with.
    pub closed spec fn seed_model(&self) -> T::V {
        self.seed@
    }

    /// The abstract value of the transform after everything fed so far.
    pub closed spec fn cur_model(&self) -> T::V {
        self.transform@
    }

    /// Whether a slice marked last has been fed; nothing more can follow.
    pub closed spec fn finished(&self) -> bool {
        self.done@
    }

    /// The decoded bytes of everything fed so far.
    pub closed spec fn total_out(&self) -> Seq<u8> {
        prefix_out(
            self.seed@,
            self.src@,
            self.mappings@,
            self.src_pos as int,
            self.done@,
            self.mappings@.len() as int,
        )
    }

    /// The builder's invariant, established by the constructors and kept by
    /// [`ChunkedDecoderBuilder::feed`].
    pub closed spec fn wf(&self) -> bool {
        &&& self.src@.len() == self.src_pos
        &&& self.dst_pos == self.total_out().len()
        &&& maps_wf(
            self.seed@,
            self.src@,
            self.mappings@,
            self.src_pos as int,
            self.dst_pos as int,
            self.done@,
        )
        &&& (self.done@ ==> self.mappings@.len() > 0)
        &&& forall|s: T::State|
            #[trigger] T::restore(self.transform@, s) == T::restore(self.seed@, s)
        &&& self.transform@ == if self.mappings@.len() == 0 {
            self.seed@
        } else {
            let n = self.mappings@.len() as int;
            T::advance(
                chunk_model(self.seed@, self.mappings@, n - 1),
                chunk_slice(self.src@, self.mappings@, n - 1),
                chunk_flag(self.mappings@, n - 1, self.src_pos as int, self.done@),
            )
        }
        &&& (T::wf(self.seed@) ==> T::wf(self.transform@))
    }

    /// Creates a builder seeded with the transform's default value.
    pub fn new() -> (r: Self) where T: Default
        ensures
            r.wf(),
            r.seed_model() == r.cur_model(),
            r.fed() == Seq::<u8>::empty(),
            r.total_out() == Seq::<u8>::empty(),
            !r.finished(),
    {
        Self::new_with_state(T::default())
    }

    /// Creates a builder seeded with the given transform, in the state it
    /// currently carries.
    pub fn new_with_state(transform: T) -> (r: Self)
        ensures
            r.wf(),
            r.seed_model() == transform@,
            r.cur_model() == transform@,
            r.fed() == Seq::<u8>::empty(),
            r.total_out() == Seq::<u8>::empty(),
            !r.finished(),
    {
        let r = ChunkedDecoderBuilder {
            transform,
            src_pos: 0,
            dst_pos: 0,
            mappings: Vec::new(),
            src: Ghost(Seq::empty()),
            seed: Ghost(transform@),
            done: Ghost(false),
        };
        r
    }

    /// Feeds the next source slice; `last` marks the final one, after which
    /// nothing more may be fed.
    pub fn feed(&mut self, chunk: &[u8], last: bool)
        requires
            old(self).wf(),
            !old(self).finished(),
            T::wf(old(self).seed_model()),
            chunk@.len() > 0,
            old(self).fed().len() + chunk@.len() <= usize::MAX,
            old(self).total_out().len() + T::output(old(self).cur_model(), chunk@, last).len()
                <= usize::MAX,
        ensures
            final(self).wf(),
            final(self).seed_model() == old(self).seed_model(),
            final(self).fed() == old(self).fed() + chunk@,
            final(self).finished() == last,
            final(self).cur_model() == T::advance(old(self).cur_model(), chunk@, last),
            final(self).total_out() == old(self).total_out() + T::output(
                old(self).cur_model(),
                chunk@,
                last,
            ),
    {
        let ghost seed = self.seed@;
        let ghost src1 = self.src@;
        let ghost maps1 = self.mappings@;
        let ghost n = self.mappings@.len() as int;
        let ghost end1 = self.src_pos as int;
        let ghost old_transform = self.transform@;

        let state = self.transform.state();
        let src_start = self.src_pos as u64;
        let dst_start = self.dst_pos as u64;
        self.src_pos += chunk.len();
        let out_len = self.transform.transform_len(chunk, last);
        self.dst_pos += out_len;
        let src_end = self.src_pos as u64;
        let dst_end = self.dst_pos as u64;
        self.src = Ghost(self.src@ + chunk@);
        self.done = Ghost(last);
        self.mappings.push(ChunkMapping { state, src_start, src_end, dst_start, dst_end });

        proof {
            let src2 = self.src@;
            let maps2 = self.mappings@;
            let end2 = self.src_pos as int;

            T::lemma_advance_wf(old_transform, chunk@, last);
            assert forall|s: T::State| #[trigger]
                T::restore(self.transform@, s) == T::restore(seed, s) by {
                T::lemma_restore(old_transform, chunk@, last, s);
            }

            // The entries recorded so far keep their slices and flags.
            assert forall|j: int| 0 <= j < n implies chunk_slice(src2, maps2, j) == chunk_slice(
                src1,
                maps1,
                j,
            ) by {
                lemma_ends_bounded(seed, src1, maps1, end1, dst_start as int, false, j);
                assert(chunk_slice(src2, maps2, j) =~= chunk_slice(src1, maps1, j));
            }
            assert forall|j: int| 0 <= j < n implies chunk_flag(maps2, j, end2, last) == chunk_flag(
                maps1,
                j,
                end1,
                false,
            ) by {
                lemma_ends_bounded(seed, src1, maps1, end1, dst_start as int, false, j);
            }
            lemma_prefix_out_stable(seed, src1, maps1, end1, false, src2, maps2, end2, last, n);

            // The new entry replays as the slice just fed.
            assert(chunk_slice(src2, maps2, n) =~= chunk@);
            assert(chunk_model(seed, maps2, n) == T::restore(old_transform, state));
            assert(chunk_model(seed, maps2, n) == old_transform);
            assert(chunk_flag(maps2, n, end2, last) == last);
            assert(chunk_out(seed, src2, maps2, end2, last, n) == T::output(
                old_transform,
                chunk@,
                last,
            ));

            // Contiguity, threading and output lengths for every entry.
            assert forall|i: int|
                1 <= i < n + 1 implies #[trigger] chunk_model(seed, maps2, i) == T::advance(
                chunk_model(seed, maps2, i - 1),
                chunk_slice(src2, maps2, i - 1),
                chunk_flag(maps2, i - 1, end2, last),
            ) by {
                if i < n {
                    assert(chunk_model(seed, maps1, i) == T::advance(
                        chunk_model(seed, maps1, i - 1),
                        chunk_slice(src1, maps1, i - 1),
                        chunk_flag(maps1, i - 1, end1, false),
                    ));
                }
            }
            assert forall|i: int|
                0 <= i < n + 1 implies (#[trigger] chunk_out(seed, src2, maps2, end2, last, i)).len()
                == maps2[i].dst_end - maps2[i].dst_start by {
                if i < n {
                    assert(chunk_out(seed, src2, maps2, end2, last, i) == chunk_out(
                        seed,
                        src1,
                        maps1,
                        end1,
                        false,
                        i,
                    ));
                }
            }
            assert(maps_wf(seed, src2, maps2, end2, self.dst_pos as int, last));
            assert(self.total_out() =~= prefix_out(seed, src2, maps2, end2, last, n)
                + chunk_out(seed, src2, maps2, end2, last, n));
        }
    }

    /// Finalizes the map and builds the decoder. The source must either be
    /// empty or have been closed by a slice fed with `last` set.
    pub fn build(self) -> (d: ChunkedDecoder<T>)
        requires
            self.wf(),
            self.fed().len() > 0 ==> self.finished(),
        ensures
            d.wf(),
            d.seed_ok() == T::wf(self.seed_model()),
            d.src_seq() == self.fed(),
            d.seed_model() == self.seed_model(),
            d.out_seq() == self.total_out(),
    {
        proof {
            if self.mappings@.len() > 0 {
                assert(self.mappings@[self.mappings@.len() - 1].src_end == self.src_pos);
                assert(self.src_pos > 0);
            }
        }
        ChunkedDecoder {
            transform: self.transform,
            input_size: self.src_pos as u64,
            output_size: self.dst_pos as u64,
            chunk_mappings: self.mappings,
            src: Ghost(self.src@),
            seed: Ghost(self.seed@),
        }
    }
}

/// For a transform whose output is split-insensitive, replaying the chunks
/// from `k` on equals one call over the remaining source.
proof fn lemma_suffix_single_pass<T: SplitTransform>(
    seed: T::V,
    src: Seq<u8>,
    maps: Seq<ChunkMapping<T>>,
    end_pos: int,
    end_out: int,
    k: int,
)
    requires
        maps_wf(seed, src, maps, end_pos, end_out, true),
        T::wf(seed),
        src.len() == end_pos,
        0 <= k < maps.len(),
    ensures
        prefix_out(seed, src, maps, end_pos, true, maps.len() as int) == prefix_out(
            seed,
            src,
            maps,
            end_pos,
            true,
            k,
        ) + T::output(chunk_model(seed, maps, k), src.skip(maps[k].src_start as int), true),
    decreases maps.len() - k,
{
    let n = maps.len() as int;
    T::lemma_restore(seed, Seq::<u8>::empty(), false, maps[k].state);
    if k == n - 1 {
        assert(chunk_flag(maps, k, end_pos, true));
        assert(chunk_slice(src, maps, k) =~= src.skip(maps[k].src_start as int));
    } else {
        lemma_suffix_single_pass(seed, src, maps, end_pos, end_out, k + 1);
        lemma_ends_monotone(seed, src, maps, end_pos, end_out, true, k + 1, n - 1);
        assert(maps[k + 1].src_start == maps[k].src_end);
        assert(maps[k].src_end < end_pos);
        assert(!chunk_flag(maps, k, end_pos, true));
        let tail = src.skip(maps[k + 1].src_start as int);
        T::lemma_split(chunk_model(seed, maps, k), chunk_slice(src, maps, k), tail, true);
        assert(chunk_slice(src, maps, k) + tail =~= src.skip(maps[k].src_start as int));
        assert(chunk_model(seed, maps, k + 1) == T::advance(
            chunk_model(seed, maps, k),
            chunk_slice(src, maps, k),
            chunk_flag(maps, k, end_pos, true),
        ));
        let pk = prefix_out(seed, src, maps, end_pos, true, k);
        let ck = chunk_out(seed, src, maps, end_pos, true, k);
        let rest = T::output(chunk_model(seed, maps, k + 1), tail, true);
        assert((pk + ck) + rest =~= pk + (ck + rest));
    }
}

/// Round trip: replaying the chunk map of a split-insensitive transform
/// reproduces the single-pass transform of the whole source. (For an empty
/// source the chunk map is empty and so is the decoded output.)
pub proof fn lemma_out_seq_single_pass<T: SplitTransform>(d: &ChunkedDecoder<T>)
    requires
        d.wf(),
        d.seed_ok(),
        d.src_seq().len() > 0,
    ensures
        d.out_seq() == T::output(d.seed_model(), d.src_seq(), true),
{
    let maps = d.chunk_mappings@;
    lemma_suffix_single_pass(
        d.seed@,
        d.src@,
        maps,
        d.input_size as int,
        d.output_size as int,
        0,
    );
    assert(d.src@.skip(maps[0].src_start as int) =~= d.src@);
    assert(Seq::<u8>::empty() + T::output(d.seed@, d.src@, true) =~= T::output(
        d.seed@,
        d.src@,
        true,
    ));
}

/// Range consistency: decoding any output range of a split-insensitive
/// transform yields exactly that slice of the single-pass transform of the
/// whole source, after clamping the range to the output size.
pub proof fn lemma_range_consistency<T: SplitTransform>(d: &ChunkedDecoder<T>, start: int, end: int)
    requires
        d.wf(),
        d.seed_ok(),
        d.src_seq().len() > 0,
    ensures
        ({
            let full = T::output(d.seed_model(), d.src_seq(), true);
            let end_c = if end > full.len() {
                full.len() as int
            } else {
                end
            };
            d.decoded_range(start, end) == if !(0 <= start < full.len()) || end_c <= start {
                Seq::<u8>::empty()
            } else {
                full.subrange(start, end_c)
            }
        }),
{
    lemma_out_seq_single_pass(d);
}

/// An empty source decodes to an empty output, and any decode of it
/// returns no bytes.
pub proof fn lemma_empty_source<T: ByteTransform>(d: &ChunkedDecoder<T>, start: int, end: int)
    requires
        d.wf(),
        d.src_seq().len() == 0,
    ensures
        d.out_seq().len() == 0,
        d.decoded_range(start, end) == Seq::<u8>::empty(),
{
    let maps = d.chunk_mappings@;
    if maps.len() > 0 {
        lemma_ends_bounded(
            d.seed@,
            d.src@,
            maps,
            d.input_size as int,
            d.output_size as int,
            true,
            0,
        );
        assert(false);
    }
}

/// Splittability: decoders built over the same source and seed transform
/// decode identically, however the source was sliced during the build.
pub proof fn lemma_build_split_independent<T: SplitTransform>(
    d1: &ChunkedDecoder<T>,
    d2: &ChunkedDecoder<T>,
)
    requires
        d1.wf(),
        d2.wf(),
        d1.seed_ok(),
        d1.seed_model() == d2.seed_model(),
        d1.src_seq() == d2.src_seq(),
        d1.src_seq().len() > 0,
    ensures
        d1.out_seq() == d2.out_seq(),
{
    lemma_out_seq_single_pass(d1);
    lemma_out_seq_single_pass(d2);
}

} // verus!
