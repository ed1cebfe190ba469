//! Hashing one row of the tree into the next.
//!
//! A row is read in chunks, which can be worked on at the same time. Every group of
//! `branches` nodes of a chunk is hashed into one node of the next row, and the hashes
//! of a chunk go to a window of the region where the next row is written.
use vstd::arithmetic::div_mod::*;
use vstd::prelude::*;
use crate::error::StoreError;
use super::read::pieces;
use super::LevelCacheStore;

verus! {

/// The number of nodes that are read and hashed as one chunk.
pub const BUILD_CHUNK_NODES: usize = 4096;

/// The part of the file that the next row is written to.
#[derive(Clone, Copy, Debug, PartialEq, Eq, Structural)]
pub struct LayerRegion {
    /// Where the region begins in the file.
    pub offset: u64,
    /// The number of bytes of the region.
    pub len: usize,
}

/// A part of a row, and where its hashes go.
#[derive(Clone, Copy, Debug, PartialEq, Eq, Structural)]
pub struct LayerChunk {
    /// The first node of the chunk.
    pub first: usize,
    /// The number of nodes of the chunk.
    pub count: usize,
    /// Where the window for the hashes begins in the region.
    pub write_offset: usize,
    /// The number of bytes of the window.
    pub write_len: usize,
}

/// What a chunk says.
pub struct ChunkView {
    pub first: nat,
    pub count: nat,
    pub write_offset: nat,
    pub write_len: nat,
}

impl View for LayerChunk {
    type V = ChunkView;

    open spec fn view(&self) -> ChunkView {
        ChunkView {
            first: self.first as nat,
            count: self.count as nat,
            write_offset: self.write_offset as nat,
            write_len: self.write_len as nat,
        }
    }
}

/// The smaller of two counts.
pub open spec fn smaller(x: int, y: int) -> int {
    if x < y {
        x
    } else {
        y
    }
}

/// The number of bytes of a window: room for the hashes of a whole chunk.
pub open spec fn window(branches: nat, elem_len: nat) -> nat {
    (BUILD_CHUNK_NODES as nat / branches) * elem_len
}

/// The number of chunks of a row.
pub open spec fn chunk_count(width: nat) -> nat {
    ((width + BUILD_CHUNK_NODES - 1) / BUILD_CHUNK_NODES as int) as nat
}

/// Chunk `i` of a row of `width` nodes that begins at node `read_start`.
pub open spec fn layer_chunk(
    read_start: nat,
    width: nat,
    branches: nat,
    elem_len: nat,
    i: nat,
) -> ChunkView {
    let room = window(branches, elem_len);
    ChunkView {
        first: read_start + i * BUILD_CHUNK_NODES as nat,
        count: smaller(
            BUILD_CHUNK_NODES as int,
            width - i * BUILD_CHUNK_NODES,
        ) as nat,
        write_offset: i * room,
        write_len: smaller(room as int, width * elem_len - i * room) as nat,
    }
}

/// What `f` may return for the bytes of a group of nodes.
pub open spec fn hashes_to<F: Fn(&[u8], usize) -> Vec<u8>>(
    f: F,
    group: Seq<u8>,
    level: usize,
    hash: Seq<u8>,
) -> bool {
    exists|g: &[u8], h: Vec<u8>|
        #![trigger call_ensures(f, (g, level), h)]
        g@ == group && h@ == hash && call_ensures(f, (g, level), h)
}

/// Hashes one after the other.
pub open spec fn joined(hashes: Seq<Seq<u8>>) -> Seq<u8>
    decreases hashes.len(),
{
    if hashes.len() == 0 {
        Seq::empty()
    } else {
        joined(hashes.drop_last()) + hashes.last()
    }
}

/// Whether `hashes` are what `f` returned for the groups of the nodes in `data`.
pub open spec fn hashes_of<F: Fn(&[u8], usize) -> Vec<u8>>(
    f: F,
    data: Seq<u8>,
    group_len: nat,
    level: usize,
    hashes: Seq<Seq<u8>>,
) -> bool {
    let groups = pieces(data, group_len);
    &&& hashes.len() == groups.len()
    &&& forall|i: int|
        0 <= i < groups.len() ==> hashes_to(f, #[trigger] groups[i], level, hashes[i])
}

impl LevelCacheStore {
    /// The region for the row above a row of `width` nodes, from node `write_start` on.
    pub fn layer_region(&self, width: usize, write_start: usize) -> (r: LayerRegion)
        requires
            write_start * self@.elem_len <= usize::MAX,
            width * self@.elem_len <= usize::MAX,
        ensures
            r.offset == write_start * self@.elem_len,
            r.len == width * self@.elem_len,
    {
        LayerRegion {
            offset: (write_start * self.elem_len) as u64,
            len: width * self.elem_len,
        }
    }

    /// Cuts a row of `width` nodes that begins at node `read_start` into chunks.
    pub fn process_layer(&self, width: usize, read_start: usize, branches: usize) -> (r: Result<
        Vec<LayerChunk>,
        StoreError,
    >)
        requires
            branches > 0,
            self@.elem_len > 0,
            read_start + width <= usize::MAX,
            width * self@.elem_len <= usize::MAX,
            window(branches as nat, self@.elem_len) <= usize::MAX,
        ensures
            if BUILD_CHUNK_NODES % branches != 0 {
                r == Err::<Vec<LayerChunk>, StoreError>(StoreError::ChunkSize)
            } else {
                &&& r matches Ok(chunks)
                &&& chunks@.len() == chunk_count(width as nat)
                &&& forall|i: int|
                    0 <= i < chunks@.len() ==> (#[trigger] chunks@[i])@ == layer_chunk(
                        read_start as nat,
                        width as nat,
                        branches as nat,
                        self@.elem_len,
                        i as nat,
                    )
            },
    {
        let room: usize = (BUILD_CHUNK_NODES / branches) * self.elem_len;
        if BUILD_CHUNK_NODES % branches != 0 {
            return Err(StoreError::ChunkSize);
        }
        let region_len: usize = width * self.elem_len;
        let mut chunks: Vec<LayerChunk> = Vec::new();
        let mut done: usize = 0;
        let mut write_offset: usize = 0;
        let ghost elem_len = self@.elem_len;
        while done < width
            invariant
                branches > 0,
                BUILD_CHUNK_NODES % branches == 0,
                elem_len == self@.elem_len > 0,
                room == window(branches as nat, elem_len),
                region_len == width * elem_len,
                read_start + width <= usize::MAX,
                done == smaller(width as int, chunks@.len() * BUILD_CHUNK_NODES),
                done < width ==> write_offset == chunks@.len() * room,
                chunks@.len() <= chunk_count(width as nat),
                done == width ==> chunks@.len() == chunk_count(width as nat),
                forall|i: int|
                    0 <= i < chunks@.len() ==> (#[trigger] chunks@[i])@ == layer_chunk(
                        read_start as nat,
                        width as nat,
                        branches as nat,
                        elem_len,
                        i as nat,
                    ),
            decreases width - done,
        {
            let left: usize = width - done;
            let count: usize = if left < BUILD_CHUNK_NODES {
                left
            } else {
                BUILD_CHUNK_NODES
            };
            proof {
                lemma_window_inside(
                    width as nat,
                    branches as nat,
                    elem_len,
                    chunks@.len(),
                );
            }
            let free: usize = region_len - write_offset;
            let write_len: usize = if free < room {
                free
            } else {
                room
            };
            chunks.push(LayerChunk { first: read_start + done, count, write_offset, write_len });
            done = done + count;
            if done < width {
                proof {
                    lemma_window_inside(
                        width as nat,
                        branches as nat,
                        elem_len,
                        chunks@.len(),
                    );
                    let n = chunks@.len() as int;
                    assert(n * room == (n - 1) * room + room) by (nonlinear_arith);
                }
                write_offset = write_offset + room;
            }
        }
        Ok(chunks)
    }

    /// Hashes the nodes of a chunk, whose bytes are `nodes`. `hash` gives the node that
    /// stands above a group of nodes in row `level`.
    pub fn hash_chunk<F: Fn(&[u8], usize) -> Vec<u8>>(
        &self,
        hash: F,
        nodes: &[u8],
        count: usize,
        branches: usize,
        level: usize,
    ) -> (r: Result<Vec<u8>, StoreError>)
        requires
            branches > 0,
            self@.elem_len > 0,
            branches * self@.elem_len <= usize::MAX,
            (count as nat / branches as nat) * self@.elem_len <= usize::MAX,
            forall|g: &[u8]| call_requires(hash, (g, level)),
        ensures
            exists|hashes: Seq<Seq<u8>>|
                #[trigger] hashes_of(hash, nodes@, branches as nat * self@.elem_len, level, hashes)
                    && (match r {
                    Ok(bytes) => bytes@ == joined(hashes) && bytes@.len() == (count as nat
                        / branches as nat) * self@.elem_len,
                    Err(e) => e == StoreError::HashedNodeLength && joined(hashes).len() != (
                    count as nat / branches as nat) * self@.elem_len,
                }),
    {
        let group_len: usize = branches * self.elem_len;
        let mut bytes: Vec<u8> = Vec::new();
        let mut at: usize = 0;
        let ghost groups = pieces(nodes@, group_len as nat);
        let ghost mut hashes: Seq<Seq<u8>> = Seq::empty();
        proof {
            assert(nodes@.skip(0) =~= nodes@);
            assert(groups.skip(0) =~= groups);
            assert(group_len > 0) by (nonlinear_arith)
                requires
                    group_len == branches * self@.elem_len,
                    branches > 0,
                    self@.elem_len > 0,
            ;
        }
        while at < nodes.len()
            invariant
                at <= nodes@.len(),
                group_len > 0,
                groups == pieces(nodes@, group_len as nat),
                hashes.len() <= groups.len(),
                groups.skip(hashes.len() as int) == pieces(nodes@.skip(at as int), group_len as nat),
                bytes@ == joined(hashes),
                forall|g: &[u8]| call_requires(hash, (g, level)),
                forall|i: int|
                    0 <= i < hashes.len() ==> hashes_to(
                        hash,
                        #[trigger] groups[i],
                        level,
                        hashes[i],
                    ),
            decreases nodes@.len() - at,
        {
            let next: usize = if nodes.len() - at < group_len {
                nodes.len()
            } else {
                at + group_len
            };
            let group = vstd::slice::slice_subrange(nodes, at, next);
            let node: Vec<u8> = hash(group, level);
            proof {
                let n = hashes.len() as int;
                let rest = nodes@.skip(at as int);
                assert(group@ =~= rest.take(next - at));
                assert(groups.skip(n)[0] == rest.take(next - at));
                assert(groups.skip(n).len() == groups.len() - n);
                assert(groups[n] == groups.skip(n)[0]);
                assert(hashes_to(hash, groups[n], level, node@));
                assert(rest.skip(next - at) =~= nodes@.skip(next as int));
                assert(groups.skip(n + 1) =~= groups.skip(n).skip(1));
                assert(groups.skip(n).skip(1) =~= pieces(nodes@.skip(next as int), group_len as nat));
                let before = hashes;
                hashes = hashes.push(node@);
                assert(hashes.drop_last() =~= before);
            }
            bytes.extend_from_slice(node.as_slice());
            proof {
                assert(bytes@ =~= joined(hashes));
            }
            at = next;
        }
        proof {
            assert(hashes.len() == groups.len()) by {
                assert(groups.skip(hashes.len() as int).len() == 0);
            }
            assert(hashes_of(hash, nodes@, branches as nat * self@.elem_len, level, hashes));
        }
        if bytes.len() != (count / branches) * self.elem_len {
            return Err(StoreError::HashedNodeLength);
        }
        Ok(bytes)
    }
}

/// The window of a chunk begins inside the region.
proof fn lemma_window_inside(width: nat, branches: nat, elem_len: nat, i: nat)
    requires
        branches > 0,
        i * BUILD_CHUNK_NODES < width,
        elem_len > 0,
    ensures
        i * window(branches, elem_len) < width * elem_len,
{
    let nodes = BUILD_CHUNK_NODES as nat / branches;
    lemma_div_nonincreasing(BUILD_CHUNK_NODES as int, branches as int);
    assert(i * (nodes * elem_len) < width * elem_len) by (nonlinear_arith)
        requires
            nodes <= BUILD_CHUNK_NODES,
            i * BUILD_CHUNK_NODES < width,
            elem_len > 0,
    ;
}

} // verus!
