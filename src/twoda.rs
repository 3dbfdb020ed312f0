//! The raw bytes of a two-dimensional table file, held in fixed-size chunks
//! for a table reader to decode.
use vstd::prelude::*;

use crate::bytes::copy_range;

verus! {

/// Number of bytes in every chunk but the last.
pub const CHUNK_SIZE: usize = 0x4000;

/// Chunk `i` of `data`: bytes `i * CHUNK_SIZE` up to the next chunk boundary
/// or the end.
pub open spec fn chunk_of(data: Seq<u8>, i: int) -> Seq<u8> {
    let start = i * 0x4000;
    let end = if start + 0x4000 <= data.len() {
        start + 0x4000
    } else {
        data.len() as int
    };
    data.subrange(start, end)
}

/// Number of chunks `data` is split into: none for empty data.
pub open spec fn chunk_count(data: Seq<u8>) -> nat {
    ((data.len() + 0x3FFF) / 0x4000) as nat
}

/// A table file's bytes, in chunks.
#[derive(Debug)]
pub struct TwoDA {
    pub read_data: Vec<Vec<u8>>,
}

impl TwoDA {
    /// Splits the table file's bytes into chunks of `CHUNK_SIZE` bytes, the
    /// last one holding the rest.
    pub fn new(data: &[u8]) -> (r: TwoDA)
        ensures
            r.read_data@.len() == chunk_count(data@),
            forall|i: int|
                0 <= i < r.read_data@.len() ==> (#[trigger] r.read_data@[i])@ == chunk_of(data@, i),
    {
        let mut chunks: Vec<Vec<u8>> = Vec::new();
        let mut start: usize = 0;
        while start < data.len()
            invariant
                start <= data@.len(),
                chunks@.len() * 0x4000 <= data@.len() ==> start == chunks@.len() * 0x4000,
                chunks@.len() * 0x4000 > data@.len() ==> start == data@.len(),
                chunks@.len() > 0 ==> (chunks@.len() - 1) * 0x4000 < data@.len(),
                forall|i: int|
                    0 <= i < chunks@.len() ==> (#[trigger] chunks@[i])@ == chunk_of(data@, i),
            decreases data@.len() - start,
        {
            let end = if data.len() - start >= CHUNK_SIZE {
                start + CHUNK_SIZE
            } else {
                data.len()
            };
            proof {
                assert(start == chunks@.len() * 0x4000);
            }
            let chunk = copy_range(data, start, end);
            chunks.push(chunk);
            start = end;
        }
        proof {
            let k = chunks@.len();
            let n = data@.len();
            assert(k == (n + 0x3FFF) / 0x4000) by (nonlinear_arith)
                requires
                    k * 0x4000 <= n ==> k * 0x4000 == n,
                    k > 0 ==> (k - 1) * 0x4000 < n,
                    k == 0 ==> n == 0,
            ;
        }
        TwoDA { read_data: chunks }
    }
}

} // verus!
