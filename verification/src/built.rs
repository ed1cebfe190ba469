//! What building a tree leaves in the file.
//!
//! `hash` stands for the hash function: it gives the node above a group of nodes, whose
//! bytes it is handed, in a given row. Running the steps of `rows` on the bytes of a file
//! that holds the leafs leaves the cached rows of the tree, the root last.
use vstd::arithmetic::div_mod::*;
use vstd::arithmetic::power::*;
use vstd::arithmetic::power2::*;
use vstd::prelude::*;
use crate::config::{ConfigView, ReaderView};
use crate::error::StoreError;
use crate::image::{cache_image, fetched, law_cached_store_reads_tree, overwrite};
use crate::store::consistency::spec_is_consistent;
use crate::store::layer::{
    chunk_count, hashes_of, joined, layer_chunk, window, BUILD_CHUNK_NODES,
};
use crate::store::read::{pieces, ReadTarget};
use crate::store::rows::{spec_build, BuildView, StepView};
use crate::store::{spec_new_from_disk_with_reader, spec_created, StoreView};
use crate::tree::{
    is_arity, is_complete, law_cache_completes_tree, law_leafs_from_len, lemma_above_base,
    lemma_row_count_above, lemma_rows_len_from_base, lemma_tree_len_splits, row_count, row_width,
    rows_len, spec_cache_size, tree_len,
};

verus! {

/// The hashes of the groups of `group_len` bytes of a row.
pub open spec fn row_hashes(
    hash: spec_fn(Seq<u8>, nat) -> Seq<u8>,
    row: Seq<u8>,
    group_len: nat,
    level: nat,
) -> Seq<Seq<u8>> {
    let groups = pieces(row, group_len);
    Seq::new(groups.len(), |i: int| hash(groups[i], level))
}

/// The row above a row.
pub open spec fn hashed_row(
    hash: spec_fn(Seq<u8>, nat) -> Seq<u8>,
    row: Seq<u8>,
    group_len: nat,
    level: nat,
) -> Seq<u8> {
    joined(row_hashes(hash, row, group_len, level))
}

/// Whether every hash is one element.
pub open spec fn hashes_elements(
    hash: spec_fn(Seq<u8>, nat) -> Seq<u8>,
    elem_len: nat,
) -> bool {
    forall|group: Seq<u8>, level: nat| (#[trigger] hash(group, level)).len() == elem_len
}

/// The pieces of a run of bytes are the pieces of its front and those of its rest.
proof fn lemma_pieces_split(front: Seq<u8>, rest: Seq<u8>, width: nat)
    requires
        width > 0,
        front.len() % width == 0,
    ensures
        pieces(front + rest, width) == pieces(front, width) + pieces(rest, width),
    decreases front.len(),
{
    if front.len() == 0 {
        assert(front + rest =~= rest);
        assert(pieces(front, width) + pieces(rest, width) =~= pieces(rest, width));
    } else {
        let w = width as int;
        lemma_mod_is_zero(front.len(), width);
        lemma_mod_sub_multiples_vanish(front.len() as int, w);
        assert((front + rest).take(w) =~= front.take(w));
        assert((front + rest).skip(w) =~= front.skip(w) + rest);
        lemma_pieces_split(front.skip(w), rest, width);
        assert(seq![front.take(w)] + (pieces(front.skip(w), width) + pieces(rest, width)) =~= (
        seq![front.take(w)] + pieces(front.skip(w), width)) + pieces(rest, width));
    }
}

/// Joining hashes one after the other.
proof fn lemma_joined_concat(a: Seq<Seq<u8>>, b: Seq<Seq<u8>>)
    ensures
        joined(a + b) == joined(a) + joined(b),
    decreases b.len(),
{
    if b.len() == 0 {
        assert(a + b =~= a);
        assert(joined(a) + joined(b) =~= joined(a));
    } else {
        assert((a + b).drop_last() =~= a + b.drop_last());
        lemma_joined_concat(a, b.drop_last());
        assert(joined(a) + joined(b.drop_last()) + b.last() =~= joined(a) + (joined(b.drop_last())
            + b.last()));
    }
}

/// The row above a row is the row above its front and that above its rest.
proof fn lemma_hashed_row_split(
    hash: spec_fn(Seq<u8>, nat) -> Seq<u8>,
    front: Seq<u8>,
    rest: Seq<u8>,
    group_len: nat,
    level: nat,
)
    requires
        group_len > 0,
        front.len() % group_len == 0,
    ensures
        hashed_row(hash, front + rest, group_len, level) == hashed_row(
            hash,
            front,
            group_len,
            level,
        ) + hashed_row(hash, rest, group_len, level),
{
    lemma_pieces_split(front, rest, group_len);
    let a = row_hashes(hash, front, group_len, level);
    let b = row_hashes(hash, rest, group_len, level);
    assert(row_hashes(hash, front + rest, group_len, level) =~= a + b);
    lemma_joined_concat(a, b);
}

/// A row of `groups` whole groups has `groups` elements above it.
proof fn lemma_hashed_row_len(
    hash: spec_fn(Seq<u8>, nat) -> Seq<u8>,
    row: Seq<u8>,
    group_len: nat,
    level: nat,
    elem_len: nat,
    groups: nat,
)
    requires
        group_len > 0,
        row.len() == groups * group_len,
        hashes_elements(hash, elem_len),
    ensures
        hashed_row(hash, row, group_len, level).len() == groups * elem_len,
    decreases groups,
{
    if groups == 0 {
        assert(row.len() == 0) by (nonlinear_arith)
            requires
                row.len() == 0 * group_len,
        ;
        assert(0 * elem_len == 0) by (nonlinear_arith);
        assert(row_hashes(hash, row, group_len, level) =~= Seq::<Seq<u8>>::empty());
    } else {
        let before = (groups - 1) as nat;
        assert(groups * group_len == before * group_len + group_len) by (nonlinear_arith)
            requires
                groups == before + 1,
        ;
        assert(groups * elem_len == before * elem_len + elem_len) by (nonlinear_arith)
            requires
                groups == before + 1,
        ;
        let cut = (before * group_len) as int;
        assert(cut >= 0) by (nonlinear_arith)
            requires
                cut == before * group_len,
        ;
        let front = row.take(cut);
        let rest = row.skip(cut);
        assert(front + rest =~= row);
        lemma_mod_multiples_basic(before as int, group_len as int);
        lemma_hashed_row_split(hash, front, rest, group_len, level);
        lemma_hashed_row_len(hash, front, group_len, level, elem_len, before);
        assert(rest.take(group_len as int) =~= rest);
        assert(rest.skip(group_len as int) =~= Seq::<u8>::empty());
        assert(pieces(rest.skip(group_len as int), group_len) =~= Seq::<Seq<u8>>::empty());
        assert(pieces(rest, group_len) =~= seq![rest]);
        let hashes = row_hashes(hash, rest, group_len, level);
        assert(hashes.len() == 1);
        assert(hashes.drop_last() =~= Seq::<Seq<u8>>::empty());
        assert(joined(hashes.drop_last()).len() == 0);
        assert(hashes.last() == hash(rest, level));
    }
}

/// Where `f` computes `hash`, hashing a chunk gives the row above it.
pub proof fn law_chunk_hashes_are_row<F: Fn(&[u8], usize) -> Vec<u8>>(
    f: F,
    hash: spec_fn(Seq<u8>, nat) -> Seq<u8>,
    data: Seq<u8>,
    group_len: nat,
    level: usize,
    hashes: Seq<Seq<u8>>,
)
    requires
        forall|g: &[u8], h: Vec<u8>|
            #[trigger] call_ensures(f, (g, level), h) ==> h@ == hash(g@, level as nat),
        hashes_of(f, data, group_len, level, hashes),
    ensures
        joined(hashes) == hashed_row(hash, data, group_len, level as nat),
{
    let groups = pieces(data, group_len);
    assert forall|i: int| 0 <= i < groups.len() implies hashes[i] == hash(
        groups[i],
        level as nat,
    ) by {
        assert(crate::store::layer::hashes_to(f, groups[i], level, hashes[i]));
    }
    assert(hashes =~= row_hashes(hash, data, group_len, level as nat));
}

/// The bytes of chunk `i` of a row of `width` elements.
pub open spec fn chunk_bytes(row: Seq<u8>, width: nat, elem_len: nat, i: nat) -> Seq<u8> {
    let chunk = layer_chunk(0, width, 1, elem_len, i);
    row.subrange(
        (chunk.first * elem_len) as int,
        ((chunk.first + chunk.count) * elem_len) as int,
    )
}

/// The region after the hashes of the first `count` chunks of a row have been written to
/// their windows.
pub open spec fn chunks_written(
    hash: spec_fn(Seq<u8>, nat) -> Seq<u8>,
    region: Seq<u8>,
    row: Seq<u8>,
    width: nat,
    branches: nat,
    elem_len: nat,
    level: nat,
    count: nat,
) -> Seq<u8>
    decreases count,
{
    if count == 0 {
        region
    } else {
        let i = (count - 1) as nat;
        overwrite(
            chunks_written(hash, region, row, width, branches, elem_len, level, i),
            layer_chunk(0, width, branches, elem_len, i).write_offset,
            hashed_row(hash, chunk_bytes(row, width, elem_len, i), branches * elem_len, level),
        )
    }
}

/// The number of elements in the first `count` chunks of a row.
spec fn nodes_before(width: nat, count: nat) -> nat {
    if count * BUILD_CHUNK_NODES <= width {
        count * BUILD_CHUNK_NODES as nat
    } else {
        width
    }
}

/// The hashes of whole groups take as many bytes as there are groups.
pub proof fn lemma_groups(nodes: nat, branches: nat, elem_len: nat)
    requires
        branches > 0,
        nodes % branches == 0,
    ensures
        nodes * elem_len == (nodes / branches) * (branches * elem_len),
        (nodes * elem_len) as int % (branches * elem_len) as int == 0 || elem_len == 0,
        nodes == (nodes / branches) * branches,
{
    lemma_fundamental_div_mod(nodes as int, branches as int);
    let q = nodes / branches;
    assert(nodes == q * branches) by (nonlinear_arith)
        requires
            nodes == branches * q,
    ;
    assert(nodes * elem_len == q * (branches * elem_len)) by (nonlinear_arith)
        requires
            nodes == q * branches,
    ;
    if elem_len > 0 {
        assert(branches * elem_len > 0) by (nonlinear_arith)
            requires
                branches > 0,
                elem_len > 0,
        ;
        lemma_mod_multiples_basic(q as int, (branches * elem_len) as int);
    }
}

/// What the first chunks have written.
proof fn lemma_chunks_written(
    hash: spec_fn(Seq<u8>, nat) -> Seq<u8>,
    region: Seq<u8>,
    row: Seq<u8>,
    width: nat,
    branches: nat,
    elem_len: nat,
    level: nat,
    count: nat,
)
    requires
        branches > 0,
        elem_len > 0,
        BUILD_CHUNK_NODES as nat % branches == 0,
        width % branches == 0,
        row.len() == width * elem_len,
        region.len() >= (width / branches) * elem_len,
        hashes_elements(hash, elem_len),
        count <= chunk_count(width),
    ensures
        chunks_written(hash, region, row, width, branches, elem_len, level, count) == hashed_row(
            hash,
            row.take((nodes_before(width, count) * elem_len) as int),
            branches * elem_len,
            level,
        ) + region.skip(((nodes_before(width, count) / branches) * elem_len) as int),
        chunks_written(hash, region, row, width, branches, elem_len, level, count).len()
            == region.len(),
        count > 0 ==> layer_chunk(
            0,
            width,
            branches,
            elem_len,
            (count - 1) as nat,
        ).write_offset + hashed_row(
            hash,
            chunk_bytes(row, width, elem_len, (count - 1) as nat),
            branches * elem_len,
            level,
        ).len() <= region.len(),
    decreases count,
{
    let chunk = BUILD_CHUNK_NODES as nat;
    let group_len = branches * elem_len;
    assert(group_len > 0) by (nonlinear_arith)
        requires
            branches > 0,
            elem_len > 0,
            group_len == branches * elem_len,
    ;
    if count == 0 {
        assert(0 * elem_len == 0) by (nonlinear_arith);
        assert(0nat / branches == 0) by {
            lemma_div_of0(branches as int);
        }
        assert(row.take(0) =~= Seq::<u8>::empty());
        assert(row_hashes(hash, row.take(0), group_len, level) =~= Seq::<Seq<u8>>::empty());
        assert(region.skip(0) =~= region);
        assert(Seq::<u8>::empty() + region =~= region);
    } else {
        let i = (count - 1) as nat;
        lemma_chunks_written(hash, region, row, width, branches, elem_len, level, i);
        let before = nodes_before(width, i);
        let after = nodes_before(width, count);
        assert(i * chunk < width);
        assert(before == i * chunk);
        // The nodes before, in and after the chunk are whole groups.
        assert(before % branches == 0) by {
            lemma_mul_mod_noop_right(i as int, chunk as int, branches as int);
            assert(i * 0 == 0);
        }
        assert(after % branches == 0) by {
            lemma_mul_mod_noop_right(count as int, chunk as int, branches as int);
            assert(count * 0 == 0);
        }
        lemma_groups(before, branches, elem_len);
        lemma_groups(after, branches, elem_len);
        lemma_groups(width, branches, elem_len);
        let front = row.take((before * elem_len) as int);
        let piece = chunk_bytes(row, width, elem_len, i);
        let bq = before / branches;
        let aq = after / branches;
        assert(before * elem_len <= after * elem_len <= width * elem_len) by (nonlinear_arith)
            requires
                before <= after <= width,
        ;
        assert(layer_chunk(0, width, 1, elem_len, i).first == before);
        assert(layer_chunk(0, width, 1, elem_len, i).count == after - before);
        assert(row.take((after * elem_len) as int) =~= front + piece);
        assert(front.len() == bq * group_len);
        lemma_hashed_row_split(hash, front, piece, group_len, level);
        lemma_hashed_row_len(hash, front, group_len, level, elem_len, bq);
        assert(bq <= aq) by {
            lemma_div_is_ordered(before as int, after as int, branches as int);
        }
        assert(aq <= width / branches) by {
            lemma_div_is_ordered(after as int, width as int, branches as int);
        }
        assert(piece.len() == (aq - bq) * group_len) by (nonlinear_arith)
            requires
                piece.len() == after * elem_len - before * elem_len,
                after * elem_len == aq * group_len,
                before * elem_len == bq * group_len,
        ;
        lemma_hashed_row_len(hash, piece, group_len, level, elem_len, (aq - bq) as nat);
        // The window begins where the hashes written so far end.
        let offset = layer_chunk(0, width, branches, elem_len, i).write_offset;
        let per_chunk = chunk / branches;
        assert(bq == i * per_chunk) by {
            lemma_groups(chunk, branches, elem_len);
            assert(i * chunk == (i * per_chunk) * branches) by (nonlinear_arith)
                requires
                    chunk == per_chunk * branches,
            ;
            lemma_div_multiples_vanish((i * per_chunk) as int, branches as int);
            assert(before == branches * (i * per_chunk)) by (nonlinear_arith)
                requires
                    before == (i * per_chunk) * branches,
            ;
        }
        assert(offset == bq * elem_len) by (nonlinear_arith)
            requires
                offset == i * (per_chunk * elem_len),
                bq == i * per_chunk,
        ;
        let lower = hashed_row(hash, front, group_len, level);
        let upper = hashed_row(hash, piece, group_len, level);
        assert(upper.len() == aq * elem_len - bq * elem_len) by (nonlinear_arith)
            requires
                upper.len() == (aq - bq) * elem_len,
        ;
        assert(aq * elem_len <= (width / branches) * elem_len) by (nonlinear_arith)
            requires
                aq <= width / branches,
        ;
        assert(bq * elem_len <= aq * elem_len) by (nonlinear_arith)
            requires
                bq <= aq,
        ;
        let prior = lower + region.skip((bq * elem_len) as int);
        assert(overwrite(prior, offset, upper) =~= (lower + upper) + region.skip(
            (aq * elem_len) as int,
        ));
    }
}

/// The hashes of the chunks of a row, each written to its own window, make up the row
/// above it at the front of the region, and leave the rest of the region as it was.
pub proof fn law_chunks_make_row(
    hash: spec_fn(Seq<u8>, nat) -> Seq<u8>,
    region: Seq<u8>,
    row: Seq<u8>,
    width: nat,
    branches: nat,
    elem_len: nat,
    level: nat,
)
    requires
        branches > 0,
        elem_len > 0,
        BUILD_CHUNK_NODES as nat % branches == 0,
        width % branches == 0,
        row.len() == width * elem_len,
        region.len() == width * elem_len,
        hashes_elements(hash, elem_len),
    ensures
        hashed_row(hash, row, branches * elem_len, level).len() == (width / branches) * elem_len,
        chunks_written(
            hash,
            region,
            row,
            width,
            branches,
            elem_len,
            level,
            chunk_count(width),
        ) == overwrite(region, 0, hashed_row(hash, row, branches * elem_len, level)),
{
    let groups = width / branches;
    assert(groups <= width) by {
        lemma_div_nonincreasing(width as int, branches as int);
    }
    assert(groups * elem_len <= width * elem_len) by (nonlinear_arith)
        requires
            groups <= width,
    ;
    lemma_chunks_written(
        hash,
        region,
        row,
        width,
        branches,
        elem_len,
        level,
        chunk_count(width),
    );
    assert(nodes_before(width, chunk_count(width)) == width);
    assert(row.take(row.len() as int) =~= row);
    lemma_groups(width, branches, elem_len);
    assert(branches * elem_len > 0) by (nonlinear_arith)
        requires
            branches > 0,
            elem_len > 0,
    ;
    lemma_hashed_row_len(hash, row, branches * elem_len, level, elem_len, groups);
    let up = hashed_row(hash, row, branches * elem_len, level);
    assert(overwrite(region, 0, up) =~= up + region.skip(up.len() as int));
}

/// The hashes of a chunk fit in its window, and no two windows share a byte.
pub proof fn law_windows_hold_hashes(
    read_start: nat,
    width: nat,
    branches: nat,
    elem_len: nat,
    i: nat,
)
    requires
        branches > 0,
        elem_len > 0,
        BUILD_CHUNK_NODES as nat % branches == 0,
        i < chunk_count(width),
    ensures
        ({
            let chunk = layer_chunk(read_start, width, branches, elem_len, i);
            let next = layer_chunk(read_start, width, branches, elem_len, i + 1);
            &&& (chunk.count / branches) * elem_len <= chunk.write_len
            &&& chunk.write_offset + chunk.write_len <= width * elem_len
            &&& chunk.write_offset + chunk.write_len <= next.write_offset
        }),
{
    let size = BUILD_CHUNK_NODES as nat;
    let chunk = layer_chunk(read_start, width, branches, elem_len, i);
    let room = window(branches, elem_len);
    assert(i * size < width);
    lemma_div_is_ordered(chunk.count as int, size as int, branches as int);
    lemma_div_nonincreasing(size as int, branches as int);
    lemma_div_nonincreasing(chunk.count as int, branches as int);
    let hashes = chunk.count / branches;
    let per_chunk = size / branches;
    assert(hashes * elem_len <= per_chunk * elem_len) by (nonlinear_arith)
        requires
            hashes <= per_chunk,
    ;
    assert(i * room + hashes * elem_len <= width * elem_len) by (nonlinear_arith)
        requires
            room == per_chunk * elem_len,
            per_chunk <= size,
            hashes <= chunk.count,
            i * size + chunk.count <= width,
    ;
    assert((i + 1) * room == i * room + room) by (nonlinear_arith);
}

/// The bytes of row `row` of the tree over `leaves`.
pub open spec fn row_bytes(
    hash: spec_fn(Seq<u8>, nat) -> Seq<u8>,
    leaves: Seq<u8>,
    group_len: nat,
    row: nat,
) -> Seq<u8>
    decreases row,
{
    if row == 0 {
        leaves
    } else {
        let below = (row - 1) as nat;
        hashed_row(hash, row_bytes(hash, leaves, group_len, below), group_len, below)
    }
}

/// The bytes of the rows from `from` up to, but without, `to`.
pub open spec fn rows_bytes(
    hash: spec_fn(Seq<u8>, nat) -> Seq<u8>,
    leaves: Seq<u8>,
    group_len: nat,
    from: nat,
    to: nat,
) -> Seq<u8>
    decreases to,
{
    if to <= from {
        Seq::empty()
    } else {
        rows_bytes(hash, leaves, group_len, from, (to - 1) as nat) + row_bytes(
            hash,
            leaves,
            group_len,
            (to - 1) as nat,
        )
    }
}

/// The file after a step: the next row is written, and the row is removed where it is to
/// be removed.
pub open spec fn after_step(
    hash: spec_fn(Seq<u8>, nat) -> Seq<u8>,
    file: Seq<u8>,
    elem_len: nat,
    branches: nat,
    step: StepView,
) -> Seq<u8> {
    let row = file.subrange(
        (step.read_start * elem_len) as int,
        ((step.read_start + step.width) * elem_len) as int,
    );
    let written = overwrite(
        file,
        step.write_start * elem_len,
        hashed_row(hash, row, branches * elem_len, step.level),
    );
    if step.truncate {
        written.skip((step.width * elem_len) as int)
    } else {
        written
    }
}

/// The file after all steps, in a store of `store_len` elements.
pub open spec fn after_build(
    hash: spec_fn(Seq<u8>, nat) -> Seq<u8>,
    file: Seq<u8>,
    elem_len: nat,
    job: BuildView,
    store_len: nat,
) -> Seq<u8>
    decreases job.width,
{
    if job.width <= 1 || job.branches < 2 {
        file
    } else {
        proof {
            lemma_div_decreases(job.width as int, job.branches as int);
        }
        after_build(
            hash,
            after_step(hash, file, elem_len, job.branches, job.layer(store_len)),
            elem_len,
            job.after_layer(),
            job.after_layer().level_node_index,
        )
    }
}

/// The state in which all steps end.
pub open spec fn final_view(job: BuildView) -> BuildView
    decreases job.width,
{
    if job.width <= 1 || job.branches < 2 {
        job
    } else {
        proof {
            lemma_div_decreases(job.width as int, job.branches as int);
        }
        final_view(job.after_layer())
    }
}

/// The store after a step: the length of the rows below the next one is recorded, and the
/// cut where the row was removed.
pub open spec fn store_after_step(store: StoreView, job: BuildView) -> StoreView {
    StoreView {
        len: job.after_layer().level_node_index,
        store_size: if job.layer(store.len).truncate {
            (store.store_size - job.width * store.elem_len) as nat
        } else {
            store.store_size
        },
        ..store
    }
}

/// The store after all steps.
pub open spec fn store_after_build(store: StoreView, job: BuildView) -> StoreView
    decreases job.width,
{
    if job.width <= 1 || job.branches < 2 {
        store
    } else {
        proof {
            lemma_div_decreases(job.width as int, job.branches as int);
        }
        store_after_build(store_after_step(store, job), job.after_layer())
    }
}

/// The store once the root has been accounted for.
pub open spec fn built_store(store: StoreView, job: BuildView) -> StoreView {
    let after = store_after_build(store, job);
    StoreView { len: after.len + 1, ..after }
}

/// Whether every row that is hashed splits into whole groups.
pub open spec fn rows_split(job: BuildView) -> bool
    decreases job.width,
{
    if job.width <= 1 || job.branches < 2 {
        true
    } else {
        proof {
            lemma_div_decreases(job.width as int, job.branches as int);
        }
        job.width % job.branches == 0 && rows_split(job.after_layer())
    }
}

/// A step is recorded as the cut of the file says: where the row is removed, the size that
/// the store then records is the one that the plan for the cut keeps.
pub proof fn law_step_records_cut(store: StoreView, job: BuildView, file_len: u64, width: usize)
    requires
        job.width == width,
        job.layer(store.len).truncate,
        file_len == store.store_size,
        store.truncate_plan(file_len, width) is Ok,
    ensures
        store_after_step(store, job) == (StoreView {
            len: job.after_layer().level_node_index,
            ..store.after_cut(store.truncate_plan(file_len, width).unwrap())
        }),
{
    assert(width * store.elem_len >= 0) by (nonlinear_arith);
}

/// The file after the first `count` chunks of a step have been worked on, one after the
/// other: the nodes of a chunk are read from the file, and their hashes are written to its
/// window in the region for the next row.
pub open spec fn file_chunks_written(
    hash: spec_fn(Seq<u8>, nat) -> Seq<u8>,
    file: Seq<u8>,
    elem_len: nat,
    branches: nat,
    step: StepView,
    count: nat,
) -> Seq<u8>
    decreases count,
{
    if count == 0 {
        file
    } else {
        let before = file_chunks_written(
            hash,
            file,
            elem_len,
            branches,
            step,
            (count - 1) as nat,
        );
        let chunk = layer_chunk(
            step.read_start,
            step.width,
            branches,
            elem_len,
            (count - 1) as nat,
        );
        let nodes = before.subrange(
            (chunk.first * elem_len) as int,
            ((chunk.first + chunk.count) * elem_len) as int,
        );
        overwrite(
            before,
            step.write_start * elem_len + chunk.write_offset,
            hashed_row(hash, nodes, branches * elem_len, step.level),
        )
    }
}

/// The chunks of a step leave the file before the region as it was, and the region as the
/// chunks of the row leave it.
proof fn lemma_file_chunks_written(
    hash: spec_fn(Seq<u8>, nat) -> Seq<u8>,
    file: Seq<u8>,
    elem_len: nat,
    branches: nat,
    step: StepView,
    count: nat,
)
    requires
        branches > 0,
        elem_len > 0,
        BUILD_CHUNK_NODES as nat % branches == 0,
        step.width % branches == 0,
        hashes_elements(hash, elem_len),
        step.write_start == step.read_start + step.width,
        file.len() >= (step.write_start + step.width / branches) * elem_len,
        count <= chunk_count(step.width),
    ensures
        file_chunks_written(hash, file, elem_len, branches, step, count) == file.take(
            (step.write_start * elem_len) as int,
        ) + chunks_written(
            hash,
            file.skip((step.write_start * elem_len) as int),
            file.subrange(
                (step.read_start * elem_len) as int,
                ((step.read_start + step.width) * elem_len) as int,
            ),
            step.width,
            branches,
            elem_len,
            step.level,
            count,
        ),
        step.write_start * elem_len + (step.width / branches) * elem_len <= file.len(),
        step.read_start * elem_len + step.width * elem_len == step.write_start * elem_len,
    decreases count,
{
    let width = step.width;
    let groups = width / branches;
    let off = step.write_start * elem_len;
    let from = step.read_start * elem_len;
    assert((step.write_start + groups) * elem_len == step.write_start * elem_len + groups
        * elem_len) by (nonlinear_arith);
    assert((step.read_start + width) * elem_len == step.read_start * elem_len + width * elem_len)
        by (nonlinear_arith);
    assert(groups * elem_len >= 0 && width * elem_len >= 0) by (nonlinear_arith);
    let front = file.take(off as int);
    let region = file.skip(off as int);
    let row = file.subrange(from as int, off as int);
    assert(region.len() >= groups * elem_len);
    if count == 0 {
        assert(front + region =~= file);
    } else {
        let i = (count - 1) as nat;
        lemma_file_chunks_written(hash, file, elem_len, branches, step, i);
        lemma_chunks_written(hash, region, row, width, branches, elem_len, step.level, i);
        lemma_chunks_written(hash, region, row, width, branches, elem_len, step.level, count);
        let before = file_chunks_written(hash, file, elem_len, branches, step, i);
        let inner = chunks_written(hash, region, row, width, branches, elem_len, step.level, i);
        let chunk = layer_chunk(step.read_start, width, branches, elem_len, i);
        let local = layer_chunk(0, width, 1, elem_len, i);
        // The nodes of the chunk lie before the region.
        assert(i * BUILD_CHUNK_NODES < width);
        assert(chunk.first == step.read_start + local.first);
        assert(chunk.count == local.count);
        assert(local.first + local.count <= width);
        let last = local.first + local.count;
        assert(chunk.first * elem_len == from + local.first * elem_len) by (nonlinear_arith)
            requires
                chunk.first == step.read_start + local.first,
                from == step.read_start * elem_len,
        ;
        assert((chunk.first + chunk.count) * elem_len == from + last * elem_len)
            by (nonlinear_arith)
            requires
                chunk.first + chunk.count == step.read_start + last,
                from == step.read_start * elem_len,
        ;
        assert(0 <= local.first * elem_len <= last * elem_len <= width * elem_len)
            by (nonlinear_arith)
            requires
                local.first <= last <= width,
        ;
        let nodes = before.subrange(
            (chunk.first * elem_len) as int,
            ((chunk.first + chunk.count) * elem_len) as int,
        );
        let piece = chunk_bytes(row, width, elem_len, i);
        assert(nodes =~= piece);
        let at = layer_chunk(0, width, branches, elem_len, i).write_offset;
        assert(chunk.write_offset == at);
        let up = hashed_row(hash, piece, branches * elem_len, step.level);
        assert(inner.len() == region.len());
        assert(at + up.len() <= region.len());
        assert(overwrite(before, off + at, up) =~= front + overwrite(inner, at, up));
    }
}

/// Working on the chunks of a row, one after the other, puts the row above it into the file
/// right behind the row and changes nothing else. At no time are the nodes of the row
/// changed, so that every chunk is read as it was before the step.
pub proof fn law_chunks_make_step(
    hash: spec_fn(Seq<u8>, nat) -> Seq<u8>,
    file: Seq<u8>,
    elem_len: nat,
    branches: nat,
    step: StepView,
    count: nat,
)
    requires
        branches > 0,
        elem_len > 0,
        BUILD_CHUNK_NODES as nat % branches == 0,
        step.width % branches == 0,
        hashes_elements(hash, elem_len),
        step.write_start == step.read_start + step.width,
        file.len() >= (step.write_start + step.width / branches) * elem_len,
        count <= chunk_count(step.width),
    ensures
        ({
            let from = (step.read_start * elem_len) as int;
            let to = ((step.read_start + step.width) * elem_len) as int;
            let row = file.subrange(from, to);
            let part = file_chunks_written(hash, file, elem_len, branches, step, count);
            let all = file_chunks_written(
                hash,
                file,
                elem_len,
                branches,
                step,
                chunk_count(step.width),
            );
            &&& part.len() == file.len()
            &&& part.subrange(from, to) == row
            &&& all == overwrite(
                file,
                step.write_start * elem_len,
                hashed_row(hash, row, branches * elem_len, step.level),
            )
            &&& after_step(hash, file, elem_len, branches, step) == (if step.truncate {
                all.skip((step.width * elem_len) as int)
            } else {
                all
            })
        }),
{
    let width = step.width;
    let off = step.write_start * elem_len;
    let from = (step.read_start * elem_len) as int;
    let front = file.take(off as int);
    let region = file.skip(off as int);
    let row = file.subrange(from, off as int);
    let chunks = chunk_count(width);
    lemma_file_chunks_written(hash, file, elem_len, branches, step, count);
    lemma_file_chunks_written(hash, file, elem_len, branches, step, chunks);
    assert((width / branches) * elem_len >= 0 && width * elem_len >= 0) by (nonlinear_arith);
    lemma_chunks_written(hash, region, row, width, branches, elem_len, step.level, count);
    lemma_chunks_written(hash, region, row, width, branches, elem_len, step.level, chunks);
    let part = file_chunks_written(hash, file, elem_len, branches, step, count);
    assert(part.subrange(from, off as int) =~= row);
    assert(nodes_before(width, chunks) == width);
    assert(row.take(row.len() as int) =~= row);
    lemma_groups(width, branches, elem_len);
    assert(branches * elem_len > 0) by (nonlinear_arith)
        requires
            branches > 0,
            elem_len > 0,
    ;
    lemma_hashed_row_len(
        hash,
        row,
        branches * elem_len,
        step.level,
        elem_len,
        width / branches,
    );
    let up = hashed_row(hash, row, branches * elem_len, step.level);
    assert(overwrite(file, off, up) =~= front + (up + region.skip(up.len() as int)));
}

/// The next row is written right behind the row that is read, so that no step writes what
/// it reads.
pub proof fn law_layer_writes_behind_row(job: BuildView, store_len: nat)
    requires
        job.wf(),
        job.level == 0 ==> store_len == job.leafs,
    ensures
        job.layer(store_len).write_start == job.layer(store_len).read_start
            + job.layer(store_len).width,
{
}

/// The steps leave what the tree should be as it is.
pub proof fn lemma_final_view(job: BuildView)
    ensures
        final_view(job).tree_len == job.tree_len,
        final_view(job).cache_index_start == job.cache_index_start,
        final_view(job).row_count == job.row_count,
    decreases job.width,
{
    if job.width > 1 && job.branches >= 2 {
        lemma_div_decreases(job.width as int, job.branches as int);
        lemma_final_view(job.after_layer());
    }
}

/// Every row of a complete tree is the base of a complete tree.
pub proof fn lemma_complete_row(leafs: nat, branches: nat, row: nat)
    requires
        branches >= 2,
        is_complete(leafs, branches),
        row < row_count(leafs, branches),
    ensures
        is_complete(row_width(leafs, branches, row), branches),
        row_width(leafs, branches, row) >= 1,
        row_width(leafs, branches, row) == 1 <==> row + 1 == row_count(leafs, branches),
    decreases row,
{
    let width = row_width(leafs, branches, row);
    lemma_row_count_above(leafs, branches, row);
    if row > 0 {
        lemma_complete_row(leafs, branches, (row - 1) as nat);
        let below = row_width(leafs, branches, (row - 1) as nat);
        assert(below != 1);
    }
    assert(is_complete(width, branches));
    lemma_basic_div(1, branches as int);
    assert(row_count(0, branches) == 0);
    assert(row_count(1, branches) == 1);
    if width > 1 {
        lemma_div_decreases(width as int, branches as int);
        lemma_div_pos_is_pos(width as int, branches as int);
        assert(is_complete(width / branches, branches));
        assert(width / branches >= 1);
        assert(row_count(width / branches, branches) >= 1);
    }
}

/// The number of bytes of a row of a complete tree.
pub proof fn lemma_row_bytes_len(
    hash: spec_fn(Seq<u8>, nat) -> Seq<u8>,
    leaves: Seq<u8>,
    leafs: nat,
    branches: nat,
    elem_len: nat,
    row: nat,
)
    requires
        branches >= 2,
        elem_len > 0,
        is_complete(leafs, branches),
        leaves.len() == leafs * elem_len,
        hashes_elements(hash, elem_len),
        row < row_count(leafs, branches),
    ensures
        row_bytes(hash, leaves, branches * elem_len, row).len() == row_width(leafs, branches, row)
            * elem_len,
    decreases row,
{
    if row > 0 {
        let below = (row - 1) as nat;
        lemma_row_bytes_len(hash, leaves, leafs, branches, elem_len, below);
        lemma_complete_row(leafs, branches, below);
        let width = row_width(leafs, branches, below);
        lemma_groups(width, branches, elem_len);
        assert(branches * elem_len > 0) by (nonlinear_arith)
            requires
                branches > 0,
                elem_len > 0,
        ;
        lemma_hashed_row_len(
            hash,
            row_bytes(hash, leaves, branches * elem_len, below),
            branches * elem_len,
            below,
            elem_len,
            width / branches,
        );
    }
}

/// The number of bytes of some rows of a complete tree.
pub proof fn lemma_rows_bytes_len(
    hash: spec_fn(Seq<u8>, nat) -> Seq<u8>,
    leaves: Seq<u8>,
    leafs: nat,
    branches: nat,
    elem_len: nat,
    from: nat,
    to: nat,
)
    requires
        branches >= 2,
        elem_len > 0,
        is_complete(leafs, branches),
        leaves.len() == leafs * elem_len,
        hashes_elements(hash, elem_len),
        from <= to <= row_count(leafs, branches),
    ensures
        rows_bytes(hash, leaves, branches * elem_len, from, to).len() == (rows_len(
            leafs,
            branches,
            to,
        ) - rows_len(leafs, branches, from)) * elem_len,
        rows_len(leafs, branches, from) <= rows_len(leafs, branches, to),
    decreases to,
{
    if from < to {
        let last = (to - 1) as nat;
        lemma_rows_bytes_len(hash, leaves, leafs, branches, elem_len, from, last);
        lemma_row_bytes_len(hash, leaves, leafs, branches, elem_len, last);
        let a = rows_len(leafs, branches, last) - rows_len(leafs, branches, from);
        let w = row_width(leafs, branches, last);
        assert(a * elem_len + w * elem_len == (a + w) * elem_len) by (nonlinear_arith);
    } else {
        assert(0 * elem_len == 0) by (nonlinear_arith);
    }
}

/// Rows hold nodes, so fewer rows hold fewer.
proof fn lemma_rows_len_ordered(leafs: nat, branches: nat, fewer: nat, more: nat)
    requires
        branches >= 2,
        fewer < more <= row_count(leafs, branches),
    ensures
        rows_len(leafs, branches, fewer) < rows_len(leafs, branches, more),
    decreases more,
{
    lemma_row_count_above(leafs, branches, (more - 1) as nat);
    if fewer < more - 1 {
        lemma_rows_len_ordered(leafs, branches, fewer, (more - 1) as nat);
    }
}

/// What the file holds before row `job.level` is hashed, where the first `discarded` rows
/// are not cached: the cached rows so far, or else that row alone.
spec fn holds_rows(
    hash: spec_fn(Seq<u8>, nat) -> Seq<u8>,
    leaves: Seq<u8>,
    file: Seq<u8>,
    elem_len: nat,
    job: BuildView,
    discarded: nat,
) -> bool {
    let gone = if job.level < discarded {
        job.level
    } else {
        discarded
    };
    let below = rows_len(job.leafs, job.branches, gone);
    let held = rows_bytes(hash, leaves, job.branches * elem_len, gone, job.level + 1);
    &&& below <= job.tree_len
    &&& file.len() == (job.tree_len - below) * elem_len
    &&& held.len() <= file.len()
    &&& file.take(held.len() as int) == held
}

/// Whether the tree under construction is complete and its first `discarded` rows are not
/// cached.
pub open spec fn complete_job(job: BuildView, discarded: nat) -> bool {
    &&& job.wf()
    &&& is_complete(job.leafs, job.branches)
    &&& job.level < row_count(job.leafs, job.branches)
    &&& 1 <= discarded < row_count(job.leafs, job.branches)
    &&& job.cache_index_start == rows_len(job.leafs, job.branches, discarded)
}

/// What holds of the widths of a row and the next in a complete tree.
proof fn lemma_next_row(job: BuildView, discarded: nat)
    requires
        complete_job(job, discarded),
        job.width > 1,
    ensures
        complete_job(job.after_layer(), discarded),
        job.width % job.branches == 0,
        job.level_node_index < job.cache_index_start <==> job.level < discarded,
        job.level_node_index + job.width + job.width / job.branches <= job.tree_len,
{
    lemma_complete_row(job.leafs, job.branches, job.level);
    lemma_row_count_above(job.leafs, job.branches, job.level);
    lemma_tree_len_splits(job.leafs, job.branches, job.level + 2);
    lemma_div_decreases(job.width as int, job.branches as int);
    if job.level < discarded {
        lemma_rows_len_ordered(job.leafs, job.branches, job.level, discarded);
    } else if discarded < job.level {
        lemma_rows_len_ordered(job.leafs, job.branches, discarded, job.level);
    }
    assert(rows_len(job.leafs, job.branches, job.level + 1) == job.level_node_index + job.width);
    assert(rows_len(job.leafs, job.branches, job.level + 2) == job.level_node_index + job.width
        + job.width / job.branches) by {
        assert(row_width(job.leafs, job.branches, job.level + 1) == job.width / job.branches);
    }
}

/// A step keeps what the file holds.
proof fn lemma_step_holds_rows(
    hash: spec_fn(Seq<u8>, nat) -> Seq<u8>,
    leaves: Seq<u8>,
    file: Seq<u8>,
    elem_len: nat,
    job: BuildView,
    store_len: nat,
    discarded: nat,
)
    requires
        elem_len > 0,
        hashes_elements(hash, elem_len),
        complete_job(job, discarded),
        leaves.len() == job.leafs * elem_len,
        job.level == 0 ==> store_len == job.leafs,
        job.width > 1,
        holds_rows(hash, leaves, file, elem_len, job, discarded),
    ensures
        holds_rows(
            hash,
            leaves,
            after_step(hash, file, elem_len, job.branches, job.layer(store_len)),
            elem_len,
            job.after_layer(),
            discarded,
        ),
{
    let b = job.branches;
    let group_len = b * elem_len;
    let k = job.level;
    let gone = if k < discarded {
        k
    } else {
        discarded
    };
    lemma_next_row(job, discarded);
    lemma_row_bytes_len(hash, leaves, job.leafs, b, elem_len, k);
    lemma_row_bytes_len(hash, leaves, job.leafs, b, elem_len, k + 1);
    if gone <= k {
        lemma_rows_bytes_len(hash, leaves, job.leafs, b, elem_len, gone, k);
    }
    lemma_rows_bytes_len(hash, leaves, job.leafs, b, elem_len, gone, k + 1);
    lemma_rows_bytes_len(hash, leaves, job.leafs, b, elem_len, gone, k + 2);
    let below = rows_len(job.leafs, b, gone);
    let step = job.layer(store_len);
    let held = rows_bytes(hash, leaves, group_len, gone, k + 1);
    let kept = rows_bytes(hash, leaves, group_len, gone, k);
    let row = row_bytes(hash, leaves, group_len, k);
    let next = row_bytes(hash, leaves, group_len, k + 1);
    let w = job.width as int;
    let e = elem_len as int;
    // The row lies behind the rows kept, and the next row goes behind it.
    assert(step.read_start == job.level_node_index - below);
    assert(step.write_start == step.read_start + w);
    assert(kept.len() == step.read_start * e);
    assert((step.read_start + w) * e == step.read_start * e + w * e) by (nonlinear_arith);
    assert(held == kept + row);
    assert(held.len() == step.write_start * e);
    let read = file.subrange(step.read_start * e, (step.read_start + w) * e);
    assert(read =~= held.subrange(kept.len() as int, held.len() as int)) by {
        assert(held =~= file.take(held.len() as int));
    }
    assert(read =~= row);
    assert(next.len() == (job.width / b) * elem_len);
    let t = (job.tree_len - below) as int;
    let n = (job.width / b) as int;
    assert(held.len() + next.len() <= file.len()) by (nonlinear_arith)
        requires
            held.len() == (step.read_start + w) * e,
            next.len() == n * e,
            file.len() == t * e,
            step.read_start + w + n <= t,
            e > 0,
    ;
    let written = overwrite(file, held.len(), next);
    assert(written =~= held + next + file.skip((held.len() + next.len()) as int));
    let longer = rows_bytes(hash, leaves, group_len, gone, k + 2);
    assert(longer == held + next);
    assert(written.len() == file.len());
    assert(written.take(longer.len() as int) =~= longer);
    if step.truncate {
        // The row is the first in the file and goes.
        assert(kept =~= Seq::<u8>::empty());
        assert(held =~= row);
        let cut = written.skip((step.width * elem_len) as int);
        assert(cut.take(next.len() as int) =~= next);
        assert(rows_bytes(hash, leaves, group_len, k + 1, k + 1) =~= Seq::<u8>::empty());
        assert(rows_bytes(hash, leaves, group_len, k + 1, k + 2) =~= next);
        assert(rows_len(job.leafs, b, k + 1) == below + w);
        assert(cut.len() == (job.tree_len - (below + w)) * e) by (nonlinear_arith)
            requires
                cut.len() == t * e - w * e,
                t == job.tree_len - below,
        ;
    }
}

/// All steps leave the rows from `discarded` on.
proof fn lemma_build_leaves_rows(
    hash: spec_fn(Seq<u8>, nat) -> Seq<u8>,
    leaves: Seq<u8>,
    file: Seq<u8>,
    elem_len: nat,
    job: BuildView,
    store_len: nat,
    discarded: nat,
)
    requires
        elem_len > 0,
        hashes_elements(hash, elem_len),
        complete_job(job, discarded),
        leaves.len() == job.leafs * elem_len,
        job.level == 0 ==> store_len == job.leafs,
        holds_rows(hash, leaves, file, elem_len, job, discarded),
    ensures
        after_build(hash, file, elem_len, job, store_len) == rows_bytes(
            hash,
            leaves,
            job.branches * elem_len,
            discarded,
            row_count(job.leafs, job.branches),
        ),
        final_view(job).level + 1 == row_count(job.leafs, job.branches),
        final_view(job).level_node_index + 1 == job.tree_len,
        complete_job(final_view(job), discarded),
        final_view(job).leafs == job.leafs,
        final_view(job).branches == job.branches,
        final_view(job).row_count == job.row_count,
        final_view(job).tree_len == job.tree_len,
        final_view(job).cache_index_start == job.cache_index_start,
        final_view(job).width <= 1,
    decreases job.width,
{
    lemma_complete_row(job.leafs, job.branches, job.level);
    if job.width > 1 {
        lemma_div_decreases(job.width as int, job.branches as int);
        lemma_next_row(job, discarded);
        lemma_step_holds_rows(hash, leaves, file, elem_len, job, store_len, discarded);
        lemma_build_leaves_rows(
            hash,
            leaves,
            after_step(hash, file, elem_len, job.branches, job.layer(store_len)),
            elem_len,
            job.after_layer(),
            job.after_layer().level_node_index,
            discarded,
        );
    } else {
        let rows = row_count(job.leafs, job.branches);
        lemma_rows_bytes_len(
            hash,
            leaves,
            job.leafs,
            job.branches,
            elem_len,
            discarded,
            rows,
        );
        lemma_basic_div(1, job.branches as int);
        assert(tree_len(0, job.branches) == 0);
        assert(tree_len(1, job.branches) == 1);
        assert(rows_len(job.leafs, job.branches, rows) == job.tree_len);
        let held = rows_bytes(hash, leaves, job.branches * elem_len, discarded, rows);
        assert(file.take(held.len() as int) =~= file);
    }
}

/// The size that the store records follows the length of the file.
proof fn lemma_build_keeps_size(
    hash: spec_fn(Seq<u8>, nat) -> Seq<u8>,
    leaves: Seq<u8>,
    file: Seq<u8>,
    store: StoreView,
    job: BuildView,
    discarded: nat,
)
    requires
        store.elem_len > 0,
        hashes_elements(hash, store.elem_len),
        complete_job(job, discarded),
        leaves.len() == job.leafs * store.elem_len,
        job.level == 0 ==> store.len == job.leafs,
        holds_rows(hash, leaves, file, store.elem_len, job, discarded),
        file.len() == store.store_size,
    ensures
        store_after_build(store, job) == (StoreView {
            len: if job.width <= 1 {
                store.len
            } else {
                final_view(job).level_node_index
            },
            store_size: after_build(hash, file, store.elem_len, job, store.len).len(),
            ..store
        }),
    decreases job.width,
{
    if job.width > 1 {
        let elem_len = store.elem_len;
        let next = job.after_layer();
        let stepped = store_after_step(store, job);
        let written = after_step(hash, file, elem_len, job.branches, job.layer(store.len));
        lemma_div_decreases(job.width as int, job.branches as int);
        lemma_next_row(job, discarded);
        lemma_step_holds_rows(hash, leaves, file, elem_len, job, store.len, discarded);
        let gone = if job.level < discarded {
            job.level
        } else {
            discarded
        };
        let below = rows_len(job.leafs, job.branches, gone);
        if job.level < discarded {
            assert(rows_len(job.leafs, job.branches, job.level + 1) == below + job.width);
            let t = job.tree_len - below;
            assert((t - job.width) * elem_len == t * elem_len - job.width * elem_len)
                by (nonlinear_arith);
        }
        assert(written.len() == stepped.store_size);
        lemma_build_keeps_size(hash, leaves, written, stepped, next, discarded);
        assert(next.width <= 1 ==> final_view(next) == next);
    }
}

/// A power of a power of two is a power of two.
proof fn lemma_complete_is_pow2(leafs: nat, branches: nat)
    requires
        is_arity(branches),
        is_complete(leafs, branches),
    ensures
        is_pow2(leafs as int),
    decreases leafs,
{
    if leafs <= 1 {
        reveal(is_pow2);
    } else {
        let up = leafs / branches;
        lemma_div_decreases(leafs as int, branches as int);
        lemma_complete_is_pow2(up, branches);
        is_pow2_equiv(up as int);
        is_pow2_equiv(branches as int);
        let i = choose|i: nat| pow(2, i) == up as int;
        let j = choose|j: nat| pow(2, j) == branches as int;
        lemma_pow_adds(2, i, j);
        lemma_fundamental_div_mod(leafs as int, branches as int);
        assert(pow(2, i + j) == leafs as int) by (nonlinear_arith)
            requires
                pow(2, i + j) == up * branches,
                leafs == branches * up,
        ;
        is_pow2_equiv(leafs as int);
    }
}

/// The state in which building begins, in a complete tree.
proof fn lemma_begin_complete(
    store: StoreView,
    branches: nat,
    leafs: nat,
    rows: nat,
    config: ConfigView,
)
    requires
        is_complete(leafs, branches),
        spec_build(store, branches, leafs, rows, Some(config)) is Ok,
    ensures
        complete_job(
            spec_build(store, branches, leafs, rows, Some(config)).unwrap(),
            config.rows_to_discard + 1,
        ),
{
    let discarded = config.rows_to_discard + 1;
    law_cache_completes_tree(leafs, branches, config.rows_to_discard);
    lemma_rows_len_from_base(leafs, branches, discarded);
    assert(rows_len(leafs, branches, 0) == 0);
}

/// The file as it is before the first row is hashed.
proof fn lemma_begin_holds_rows(
    hash: spec_fn(Seq<u8>, nat) -> Seq<u8>,
    leaves: Seq<u8>,
    file: Seq<u8>,
    elem_len: nat,
    job: BuildView,
    discarded: nat,
)
    requires
        complete_job(job, discarded),
        job.level == 0,
        leaves.len() == job.leafs * elem_len,
        file.len() == job.tree_len * elem_len,
        leaves.len() <= file.len(),
        file.take(leaves.len() as int) == leaves,
    ensures
        holds_rows(hash, leaves, file, elem_len, job, discarded),
{
    let group_len = job.branches * elem_len;
    assert(rows_bytes(hash, leaves, group_len, 0, 0) =~= Seq::<u8>::empty());
    assert(rows_bytes(hash, leaves, group_len, 0, 1) =~= leaves);
    assert(rows_len(job.leafs, job.branches, 0) == 0);
}

/// Building a tree over the leafs at the front of the file leaves the cached rows in it
/// and nothing else, so that the file is consistent with its configuration. The store then
/// holds the whole tree and records the length that the file has.
pub proof fn law_build_leaves_cached_rows(
    hash: spec_fn(Seq<u8>, nat) -> Seq<u8>,
    leaves: Seq<u8>,
    file: Seq<u8>,
    store: StoreView,
    branches: nat,
    leafs: nat,
    rows: nat,
    config: ConfigView,
)
    requires
        store.elem_len > 0,
        hashes_elements(hash, store.elem_len),
        is_complete(leafs, branches),
        spec_build(store, branches, leafs, rows, Some(config)) is Ok,
        leaves.len() == leafs * store.elem_len,
        file.len() == tree_len(leafs, branches) * store.elem_len,
        file.len() == store.store_size,
        leaves.len() <= file.len(),
        file.take(leaves.len() as int) == leaves,
    ensures
        ({
            let job = spec_build(store, branches, leafs, rows, Some(config)).unwrap();
            let left = after_build(hash, file, store.elem_len, job, store.len);
            let cached = spec_cache_size(leafs, branches, config.rows_to_discard).unwrap();
            &&& left == rows_bytes(
                hash,
                leaves,
                branches * store.elem_len,
                config.rows_to_discard + 1,
                row_count(leafs, branches),
            )
            &&& left.len() == cached * store.elem_len
            &&& built_store(store, job) == (StoreView {
                len: tree_len(leafs, branches),
                store_size: left.len(),
                ..store
            })
            &&& spec_is_consistent(
                tree_len(leafs, branches),
                branches,
                store.elem_len,
                config,
                left.len(),
            ) == Ok::<bool, StoreError>(true)
        }),
{
    let discarded = config.rows_to_discard + 1;
    let job = spec_build(store, branches, leafs, rows, Some(config)).unwrap();
    lemma_begin_complete(store, branches, leafs, rows, config);
    lemma_begin_holds_rows(hash, leaves, file, store.elem_len, job, discarded);
    lemma_build_leaves_rows(
        hash,
        leaves,
        file,
        store.elem_len,
        job,
        store.len,
        discarded,
    );
    lemma_build_keeps_size(hash, leaves, file, store, job, discarded);
    lemma_rows_bytes_len(
        hash,
        leaves,
        leafs,
        branches,
        store.elem_len,
        discarded,
        row_count(leafs, branches),
    );
    law_cache_completes_tree(leafs, branches, config.rows_to_discard);
    let end = final_view(job);
    lemma_complete_row(leafs, branches, end.level);
    assert(rows_len(leafs, branches, row_count(leafs, branches)) == end.level_node_index
        + end.width);
    law_leafs_from_len(leafs, branches);
    lemma_complete_is_pow2(leafs, branches);
}

/// The file after all steps, where each is done chunk by chunk.
pub open spec fn after_chunked_build(
    hash: spec_fn(Seq<u8>, nat) -> Seq<u8>,
    file: Seq<u8>,
    elem_len: nat,
    job: BuildView,
    store_len: nat,
) -> Seq<u8>
    decreases job.width,
{
    if job.width <= 1 || job.branches < 2 {
        file
    } else {
        proof {
            lemma_div_decreases(job.width as int, job.branches as int);
        }
        let step = job.layer(store_len);
        let written = file_chunks_written(
            hash,
            file,
            elem_len,
            job.branches,
            step,
            chunk_count(step.width),
        );
        after_chunked_build(
            hash,
            if step.truncate {
                written.skip((step.width * elem_len) as int)
            } else {
                written
            },
            elem_len,
            job.after_layer(),
            job.after_layer().level_node_index,
        )
    }
}

/// In every step the file has room for the next row, so the chunks make the step.
proof fn lemma_chunked_build(
    hash: spec_fn(Seq<u8>, nat) -> Seq<u8>,
    leaves: Seq<u8>,
    file: Seq<u8>,
    elem_len: nat,
    job: BuildView,
    store_len: nat,
    discarded: nat,
)
    requires
        elem_len > 0,
        hashes_elements(hash, elem_len),
        BUILD_CHUNK_NODES as nat % job.branches == 0,
        complete_job(job, discarded),
        leaves.len() == job.leafs * elem_len,
        job.level == 0 ==> store_len == job.leafs,
        holds_rows(hash, leaves, file, elem_len, job, discarded),
    ensures
        after_chunked_build(hash, file, elem_len, job, store_len) == after_build(
            hash,
            file,
            elem_len,
            job,
            store_len,
        ),
    decreases job.width,
{
    if job.width > 1 {
        let step = job.layer(store_len);
        let gone = if job.level < discarded {
            job.level
        } else {
            discarded
        };
        let room = (job.tree_len - rows_len(job.leafs, job.branches, gone)) as nat;
        lemma_div_decreases(job.width as int, job.branches as int);
        lemma_next_row(job, discarded);
        law_layer_writes_behind_row(job, store_len);
        let end = step.write_start + step.width / job.branches;
        assert(end <= room);
        assert(end * elem_len <= room * elem_len) by (nonlinear_arith)
            requires
                end <= room,
        ;
        law_chunks_make_step(
            hash,
            file,
            elem_len,
            job.branches,
            step,
            chunk_count(step.width),
        );
        lemma_step_holds_rows(hash, leaves, file, elem_len, job, store_len, discarded);
        lemma_chunked_build(
            hash,
            leaves,
            after_step(hash, file, elem_len, job.branches, step),
            elem_len,
            job.after_layer(),
            job.after_layer().level_node_index,
            discarded,
        );
    }
}

/// Building a complete tree chunk by chunk leaves the file that building it row by row
/// leaves.
pub proof fn law_chunked_build_is_build(
    hash: spec_fn(Seq<u8>, nat) -> Seq<u8>,
    leaves: Seq<u8>,
    file: Seq<u8>,
    store: StoreView,
    branches: nat,
    leafs: nat,
    rows: nat,
    config: ConfigView,
)
    requires
        store.elem_len > 0,
        hashes_elements(hash, store.elem_len),
        BUILD_CHUNK_NODES as nat % branches == 0,
        is_complete(leafs, branches),
        spec_build(store, branches, leafs, rows, Some(config)) is Ok,
        leaves.len() == leafs * store.elem_len,
        file.len() == tree_len(leafs, branches) * store.elem_len,
        leaves.len() <= file.len(),
        file.take(leaves.len() as int) == leaves,
    ensures
        ({
            let job = spec_build(store, branches, leafs, rows, Some(config)).unwrap();
            after_chunked_build(hash, file, store.elem_len, job, store.len) == after_build(
                hash,
                file,
                store.elem_len,
                job,
                store.len,
            )
        }),
{
    let discarded = config.rows_to_discard + 1;
    let job = spec_build(store, branches, leafs, rows, Some(config)).unwrap();
    lemma_begin_complete(store, branches, leafs, rows, config);
    lemma_begin_holds_rows(hash, leaves, file, store.elem_len, job, discarded);
    lemma_chunked_build(hash, leaves, file, store.elem_len, job, store.len, discarded);
}

/// Once all rows are built, the root is found in the last element of the file.
pub proof fn law_build_finds_root(
    hash: spec_fn(Seq<u8>, nat) -> Seq<u8>,
    leaves: Seq<u8>,
    file: Seq<u8>,
    store: StoreView,
    branches: nat,
    leafs: nat,
    config: ConfigView,
    base: Seq<u8>,
)
    requires
        store.elem_len > 0,
        store.data_width == leafs,
        hashes_elements(hash, store.elem_len),
        is_complete(leafs, branches),
        spec_build(store, branches, leafs, row_count(leafs, branches), Some(config)) is Ok,
        leaves.len() == leafs * store.elem_len,
        file.len() == tree_len(leafs, branches) * store.elem_len,
        file.len() == store.store_size,
        leaves.len() <= file.len(),
        file.take(leaves.len() as int) == leaves,
    ensures
        ({
            let rows = row_count(leafs, branches);
            let job = spec_build(store, branches, leafs, rows, Some(config)).unwrap();
            let left = after_build(hash, file, store.elem_len, job, store.len);
            let end = final_view(job);
            let after = store_after_build(store, job);
            let root = row_bytes(hash, leaves, branches * store.elem_len, (rows - 1) as nat);
            &&& end.width <= 1
            &&& root.len() == store.elem_len
            &&& end.root_target(after) matches Ok(target)
            &&& fetched(target, left, base) == root
        }),
{
    let rows = row_count(leafs, branches);
    let discarded = config.rows_to_discard + 1;
    let elem_len = store.elem_len;
    let job = spec_build(store, branches, leafs, rows, Some(config)).unwrap();
    let left = after_build(hash, file, elem_len, job, store.len);
    let end = final_view(job);
    let after = store_after_build(store, job);
    law_build_leaves_cached_rows(
        hash,
        leaves,
        file,
        store,
        branches,
        leafs,
        rows,
        config,
    );
    lemma_begin_complete(store, branches, leafs, rows, config);
    lemma_begin_holds_rows(hash, leaves, file, elem_len, job, discarded);
    lemma_build_leaves_rows(hash, leaves, file, elem_len, job, store.len, discarded);
    lemma_row_bytes_len(hash, leaves, leafs, branches, elem_len, (rows - 1) as nat);
    lemma_complete_row(leafs, branches, (rows - 1) as nat);
    law_cache_completes_tree(leafs, branches, config.rows_to_discard);
    lemma_above_base(leafs, branches);
    lemma_rows_len_from_base(leafs, branches, discarded);
    let cached = spec_cache_size(leafs, branches, config.rows_to_discard).unwrap();
    let t = tree_len(leafs, branches);
    let root = row_bytes(hash, leaves, branches * elem_len, (rows - 1) as nat);
    let before = rows_bytes(hash, leaves, branches * elem_len, discarded, (rows - 1) as nat);
    assert(1 * elem_len == elem_len) by (nonlinear_arith);
    assert(root.len() == elem_len);
    assert(left == before + root);
    assert(end.tree_len - end.cache_index_start == cached);
    let start = ((cached - 1) * elem_len) as nat;
    assert((cached - 1) * elem_len + elem_len == cached * elem_len) by (nonlinear_arith);
    assert((cached - 1) * elem_len >= 0) by (nonlinear_arith)
        requires
            cached >= 1,
    ;
    assert(cached * elem_len <= t * elem_len) by (nonlinear_arith)
        requires
            cached <= t,
    ;
    assert((cached - 1) * elem_len <= leafs * elem_len) by (nonlinear_arith)
        requires
            cached - 1 <= leafs,
    ;
    let built = StoreView { len: after.len + 1, ..after };
    assert(built.byte_len() == t * elem_len);
    assert(built.range_check(start, cached * elem_len) is Ok);
    assert(left.subrange(start as int, (cached * elem_len) as int) =~= root);
}

/// While a complete tree is built, every read of nodes of the row that is hashed is
/// accepted, and finds the nodes where they lie in the file.
pub proof fn law_layer_reads_accepted(
    store: StoreView,
    job: BuildView,
    discarded: nat,
    first: nat,
    count: nat,
)
    requires
        complete_job(job, discarded),
        job.width > 1,
        store.elem_len > 0,
        store.data_width == job.leafs,
        store.len == (if job.level == 0 {
            job.leafs
        } else {
            job.level_node_index
        }),
        count >= 1,
        job.layer(store.len).read_start <= first,
        first + count <= job.layer(store.len).read_start + job.width,
    ensures
        store.internal_target(first * store.elem_len, (first + count) * store.elem_len)
            == Ok::<ReadTarget, StoreError>(
            ReadTarget::File { offset: first * store.elem_len, len: count * store.elem_len },
        ),
{
    let elem_len = store.elem_len;
    let step = job.layer(store.len);
    lemma_next_row(job, discarded);
    lemma_above_base(job.leafs, job.branches);
    lemma_row_below_base(job.leafs, job.branches, job.level);
    if job.level > 0 {
        lemma_rows_len_from_base(job.leafs, job.branches, job.level);
    }
    assert(first < store.len);
    assert(first + count <= store.len);
    assert(first <= job.leafs);
    assert(first * elem_len < store.len * elem_len) by (nonlinear_arith)
        requires
            first < store.len,
            elem_len > 0,
    ;
    assert((first + count) * elem_len <= store.len * elem_len) by (nonlinear_arith)
        requires
            first + count <= store.len,
    ;
    assert(first * elem_len <= job.leafs * elem_len) by (nonlinear_arith)
        requires
            first <= job.leafs,
    ;
    assert((first + count) * elem_len - first * elem_len == count * elem_len) by (nonlinear_arith);
}

/// No row is wider than the base.
proof fn lemma_row_below_base(leafs: nat, branches: nat, row: nat)
    requires
        branches >= 2,
    ensures
        row_width(leafs, branches, row) <= leafs,
    decreases row,
{
    if row > 0 {
        lemma_row_below_base(leafs, branches, (row - 1) as nat);
        lemma_div_nonincreasing(
            row_width(leafs, branches, (row - 1) as nat) as int,
            branches as int,
        );
    }
}

/// The hashes of a chunk of whole groups are as long as its nodes call for.
pub proof fn law_chunk_hashes_accepted(
    hash: spec_fn(Seq<u8>, nat) -> Seq<u8>,
    nodes: Seq<u8>,
    count: nat,
    branches: nat,
    elem_len: nat,
    level: nat,
)
    requires
        branches > 0,
        elem_len > 0,
        count % branches == 0,
        nodes.len() == count * elem_len,
        hashes_elements(hash, elem_len),
    ensures
        hashed_row(hash, nodes, branches * elem_len, level).len() == (count / branches) * elem_len,
{
    lemma_groups(count, branches, elem_len);
    assert(branches * elem_len > 0) by (nonlinear_arith)
        requires
            branches > 0,
            elem_len > 0,
    ;
    lemma_hashed_row_len(hash, nodes, branches * elem_len, level, elem_len, count / branches);
}

/// The hashes of a chunk that ends in a part of a group are one element longer than its
/// nodes call for.
pub proof fn law_partial_group_refused(
    hash: spec_fn(Seq<u8>, nat) -> Seq<u8>,
    nodes: Seq<u8>,
    count: nat,
    branches: nat,
    elem_len: nat,
    level: nat,
)
    requires
        branches > 0,
        elem_len > 0,
        count % branches != 0,
        nodes.len() == count * elem_len,
        hashes_elements(hash, elem_len),
    ensures
        hashed_row(hash, nodes, branches * elem_len, level).len() == (count / branches)
            * elem_len + elem_len,
{
    let groups = count / branches;
    let left = count % branches;
    let group_len = branches * elem_len;
    let cut = groups * group_len;
    lemma_fundamental_div_mod(count as int, branches as int);
    assert(group_len > 0) by (nonlinear_arith)
        requires
            branches > 0,
            elem_len > 0,
            group_len == branches * elem_len,
    ;
    assert(count * elem_len == groups * (branches * elem_len) + left * elem_len)
        by (nonlinear_arith)
        requires
            count == branches * groups + left,
    ;
    assert(0 < left * elem_len < branches * elem_len) by (nonlinear_arith)
        requires
            0 < left < branches,
            elem_len > 0,
    ;
    let front = nodes.take(cut as int);
    let rest = nodes.skip(cut as int);
    assert(front + rest =~= nodes);
    lemma_mod_multiples_basic(groups as int, group_len as int);
    lemma_hashed_row_split(hash, front, rest, group_len, level);
    lemma_hashed_row_len(hash, front, group_len, level, elem_len, groups);
    assert(rest.take(rest.len() as int) =~= rest);
    assert(pieces(rest.skip(rest.len() as int), group_len) =~= Seq::<Seq<u8>>::empty());
    assert(pieces(rest, group_len) =~= seq![rest]);
    let hashes = row_hashes(hash, rest, group_len, level);
    assert(hashes.drop_last() =~= Seq::<Seq<u8>>::empty());
    assert(joined(hashes.drop_last()).len() == 0);
    assert(hashes.last() == hash(rest, level));
}

/// Some rows are the first of them followed by the others.
pub proof fn lemma_rows_bytes_split(
    hash: spec_fn(Seq<u8>, nat) -> Seq<u8>,
    leaves: Seq<u8>,
    group_len: nat,
    from: nat,
    cut: nat,
    to: nat,
)
    requires
        from <= cut <= to,
    ensures
        rows_bytes(hash, leaves, group_len, from, to) == rows_bytes(
            hash,
            leaves,
            group_len,
            from,
            cut,
        ) + rows_bytes(hash, leaves, group_len, cut, to),
    decreases to,
{
    let front = rows_bytes(hash, leaves, group_len, from, cut);
    if cut < to {
        let last = (to - 1) as nat;
        lemma_rows_bytes_split(hash, leaves, group_len, from, cut, last);
        let middle = rows_bytes(hash, leaves, group_len, cut, last);
        let row = row_bytes(hash, leaves, group_len, last);
        assert(front + middle + row =~= front + (middle + row));
    } else {
        assert(front + Seq::<u8>::empty() =~= front);
    }
}

/// A complete tree with more than one leaf has an even number of them.
proof fn lemma_leafs_even(leafs: nat, branches: nat)
    requires
        is_arity(branches),
        is_complete(leafs, branches),
        leafs > 1,
    ensures
        leafs % 2 == 0,
{
    reveal(is_pow2);
    let half = branches / 2;
    let up = leafs / branches;
    lemma_fundamental_div_mod(leafs as int, branches as int);
    assert(leafs == 2 * (half * up)) by (nonlinear_arith)
        requires
            leafs == branches * up,
            branches == 2 * half,
    ;
}

/// A tree that was built over the leafs of a new store, and whose base row a reader then
/// serves, is read back: the base row from the reader, the cached rows from the file.
pub proof fn law_built_store_reads_tree(
    hash: spec_fn(Seq<u8>, nat) -> Seq<u8>,
    leaves: Seq<u8>,
    file: Seq<u8>,
    branches: nat,
    leafs: nat,
    elem_len: nat,
    config: ConfigView,
    reader: ReaderView,
    start: nat,
    end: nat,
)
    requires
        elem_len > 0,
        hashes_elements(hash, elem_len),
        is_complete(leafs, branches),
        leaves.len() == leafs * elem_len,
        spec_created(tree_len(leafs, branches), branches, elem_len, config) is Ok,
        ({
            let store = spec_created(
                tree_len(leafs, branches),
                branches,
                elem_len,
                config,
            ).unwrap();
            &&& file.len() == store.store_size
            &&& leaves.len() <= file.len()
            &&& file.take(leaves.len() as int) == leaves
            &&& start <= end <= file.len()
            &&& (start < store.base_end() && end <= store.base_end()) || start
                >= store.cache_index_start
        }),
    ensures
        ({
            let created = spec_created(
                tree_len(leafs, branches),
                branches,
                elem_len,
                config,
            ).unwrap();
            let filled = StoreView { len: leafs, ..created };
            let rows = row_count(leafs, branches);
            let begun = spec_build(filled, branches, leafs, rows, Some(config));
            let left = after_build(hash, file, elem_len, begun.unwrap(), leafs);
            let built = StoreView {
                reader: Some(reader),
                ..built_store(filled, begun.unwrap())
            };
            let tree = rows_bytes(hash, leaves, branches * elem_len, 0, rows);
            &&& begun is Ok
            &&& tree.len() == built.byte_len()
            &&& built.accepts(start)
            &&& fetched(built.target(start, end, (end - start) as nat), left, leaves)
                == tree.subrange(start as int, end as int)
        }),
{
    let len = tree_len(leafs, branches);
    let created = spec_created(len, branches, elem_len, config).unwrap();
    let filled = StoreView { len: leafs, ..created };
    let rows = row_count(leafs, branches);
    let discarded = config.rows_to_discard + 1;
    let group_len = branches * elem_len;
    let job = spec_build(filled, branches, leafs, rows, Some(config)).unwrap();
    let left = after_build(hash, file, elem_len, job, leafs);
    let built = StoreView { reader: Some(reader), ..built_store(filled, job) };
    let tree = rows_bytes(hash, leaves, group_len, 0, rows);
    law_leafs_from_len(leafs, branches);
    lemma_leafs_even(leafs, branches);
    law_build_leaves_cached_rows(
        hash,
        leaves,
        file,
        filled,
        branches,
        leafs,
        rows,
        config,
    );
    law_cache_completes_tree(leafs, branches, config.rows_to_discard);
    lemma_rows_bytes_split(hash, leaves, group_len, 0, discarded, rows);
    lemma_rows_bytes_split(hash, leaves, group_len, 0, 1, rows);
    assert(rows_bytes(hash, leaves, group_len, 0, 0) =~= Seq::<u8>::empty());
    assert(rows_bytes(hash, leaves, group_len, 0, 1) =~= leaves);
    lemma_rows_bytes_len(hash, leaves, leafs, branches, elem_len, 0, discarded);
    lemma_rows_bytes_len(hash, leaves, leafs, branches, elem_len, 0, rows);
    lemma_rows_len_from_base(leafs, branches, discarded);
    lemma_begin_complete(filled, branches, leafs, rows, config);
    lemma_begin_holds_rows(hash, leaves, file, elem_len, job, discarded);
    lemma_build_leaves_rows(hash, leaves, file, elem_len, job, leafs, discarded);
    lemma_complete_row(leafs, branches, final_view(job).level);
    assert(rows_len(leafs, branches, 0) == 0);
    assert(rows_len(leafs, branches, rows) == len);
    let cached = spec_cache_size(leafs, branches, config.rows_to_discard).unwrap();
    assert(created.cache_index_start == rows_len(leafs, branches, discarded) * elem_len) by {
        assert(len - cached == rows_len(leafs, branches, discarded));
    }
    assert(leafs * elem_len <= rows_len(leafs, branches, discarded) * elem_len)
        by (nonlinear_arith)
        requires
            leafs <= rows_len(leafs, branches, discarded),
    ;
    assert(cache_image(built, tree) =~= left);
    assert(tree.take(leaves.len() as int) =~= leaves);
    law_cached_store_reads_tree(built, tree, start, end);
}

/// The file that building leaves can be opened beside a reader of the base row. That gives
/// the store that was built, with its reader, and the record that it was loaded.
pub proof fn law_built_file_reopens(
    hash: spec_fn(Seq<u8>, nat) -> Seq<u8>,
    leaves: Seq<u8>,
    file: Seq<u8>,
    branches: nat,
    leafs: nat,
    elem_len: nat,
    config: ConfigView,
    reader: ReaderView,
)
    requires
        elem_len > 0,
        hashes_elements(hash, elem_len),
        is_complete(leafs, branches),
        leaves.len() == leafs * elem_len,
        spec_created(tree_len(leafs, branches), branches, elem_len, config) is Ok,
        file.len() == tree_len(leafs, branches) * elem_len,
        leaves.len() <= file.len(),
        file.take(leaves.len() as int) == leaves,
    ensures
        ({
            let len = tree_len(leafs, branches);
            let created = spec_created(len, branches, elem_len, config).unwrap();
            let filled = StoreView { len: leafs, ..created };
            let rows = row_count(leafs, branches);
            let begun = spec_build(filled, branches, leafs, rows, Some(config));
            let left = after_build(hash, file, elem_len, begun.unwrap(), leafs);
            &&& begun is Ok
            &&& spec_new_from_disk_with_reader(
                len,
                branches,
                elem_len,
                config,
                reader,
                left.len(),
            ) == Ok::<StoreView, StoreError>(
                StoreView {
                    loaded_from_disk: true,
                    reader: Some(reader),
                    ..built_store(filled, begun.unwrap())
                },
            )
        }),
{
    let len = tree_len(leafs, branches);
    let created = spec_created(len, branches, elem_len, config).unwrap();
    let filled = StoreView { len: leafs, ..created };
    let rows = row_count(leafs, branches);
    law_leafs_from_len(leafs, branches);
    lemma_leafs_even(leafs, branches);
    law_build_leaves_cached_rows(
        hash,
        leaves,
        file,
        filled,
        branches,
        leafs,
        rows,
        config,
    );
}

/// A row whose chunks all split into whole groups splits into whole groups.
pub proof fn law_whole_chunks_make_whole_row(
    read_start: nat,
    width: nat,
    branches: nat,
    elem_len: nat,
)
    requires
        branches > 0,
        BUILD_CHUNK_NODES as nat % branches == 0,
        forall|i: nat|
            i < chunk_count(width) ==> (#[trigger] layer_chunk(
                read_start,
                width,
                branches,
                elem_len,
                i,
            )).count % branches == 0,
    ensures
        width % branches == 0,
{
    if width > 0 {
        let chunk = BUILD_CHUNK_NODES as nat;
        let last = (chunk_count(width) - 1) as nat;
        let count = layer_chunk(read_start, width, branches, elem_len, last).count;
        assert(count % branches == 0);
        assert(width == last * chunk + count);
        lemma_mul_mod_noop_right(last as int, chunk as int, branches as int);
        assert(last * 0 == 0);
        lemma_add_mod_noop((last * chunk) as int, count as int, branches as int);
    } else {
        lemma_small_mod(0, branches);
    }
}

/// Where all rows from the next one on split, the next row is the base of a complete tree
/// and the steps end at its root.
proof fn lemma_split_rows_complete(job: BuildView)
    requires
        job.wf(),
        job.width >= 1,
        rows_split(job),
    ensures
        is_complete(job.width, job.branches),
        final_view(job).wf(),
        final_view(job).width == 1,
        final_view(job).branches == job.branches,
        final_view(job).leafs == job.leafs,
        final_view(job).row_count == job.row_count,
    decreases job.width,
{
    if job.width > 1 {
        let next = job.after_layer();
        lemma_div_decreases(job.width as int, job.branches as int);
        lemma_fundamental_div_mod(job.width as int, job.branches as int);
        assert(next.width >= 1) by (nonlinear_arith)
            requires
                job.width == job.branches * next.width,
                job.width > 1,
        ;
        assert(next.wf());
        lemma_split_rows_complete(next);
    }
}

/// A build that comes to its end was one of a complete tree with the number of rows that
/// it was told.
pub proof fn law_finished_build_is_complete(
    store: StoreView,
    branches: nat,
    leafs: nat,
    rows: nat,
    config: ConfigView,
)
    requires
        spec_build(store, branches, leafs, rows, Some(config)) is Ok,
        ({
            let job = spec_build(store, branches, leafs, rows, Some(config)).unwrap();
            &&& rows_split(job)
            &&& final_view(job).root_target(store_after_build(store, job)) is Ok
        }),
    ensures
        is_complete(leafs, branches),
        rows == row_count(leafs, branches),
{
    let job = spec_build(store, branches, leafs, rows, Some(config)).unwrap();
    law_cache_completes_tree(leafs, branches, config.rows_to_discard);
    lemma_rows_len_from_base(leafs, branches, config.rows_to_discard + 1);
    assert(rows_len(leafs, branches, 0) == 0);
    assert(job.wf());
    lemma_split_rows_complete(job);
    lemma_basic_div(1, branches as int);
    assert(row_count(0, branches) == 0);
    assert(row_count(1, branches) == 1);
}

/// Once a build over the leafs of a new store has come to its end, the file is consistent
/// with its configuration, and the last element that is read through the store, its base
/// row served by a reader, is the root that the build gave: it comes from the file.
pub proof fn law_finished_build_reads_root(
    hash: spec_fn(Seq<u8>, nat) -> Seq<u8>,
    leaves: Seq<u8>,
    file: Seq<u8>,
    branches: nat,
    leafs: nat,
    rows: nat,
    elem_len: nat,
    config: ConfigView,
    reader: ReaderView,
    base: Seq<u8>,
)
    requires
        elem_len > 0,
        hashes_elements(hash, elem_len),
        leaves.len() == leafs * elem_len,
        spec_created(tree_len(leafs, branches), branches, elem_len, config) is Ok,
        file.len() == tree_len(leafs, branches) * elem_len,
        leaves.len() <= file.len(),
        file.take(leaves.len() as int) == leaves,
        ({
            let created = spec_created(
                tree_len(leafs, branches),
                branches,
                elem_len,
                config,
            ).unwrap();
            let filled = StoreView { len: leafs, ..created };
            let begun = spec_build(filled, branches, leafs, rows, Some(config));
            let job = begun.unwrap();
            &&& begun is Ok
            &&& rows_split(job)
            &&& final_view(job).root_target(store_after_build(filled, job)) is Ok
        }),
    ensures
        ({
            let len = tree_len(leafs, branches);
            let created = spec_created(len, branches, elem_len, config).unwrap();
            let filled = StoreView { len: leafs, ..created };
            let job = spec_build(filled, branches, leafs, rows, Some(config)).unwrap();
            let left = after_build(hash, file, elem_len, job, leafs);
            let root = fetched(
                final_view(job).root_target(store_after_build(filled, job)).unwrap(),
                left,
                base,
            );
            let built = StoreView { reader: Some(reader), ..built_store(filled, job) };
            &&& built.len == len
            &&& built.store_size == left.len()
            &&& spec_is_consistent(len, branches, elem_len, config, left.len()) == Ok::<
                bool,
                StoreError,
            >(true)
            &&& root == row_bytes(hash, leaves, branches * elem_len, (rows - 1) as nat)
            &&& built.checked_target(
                ((len - 1) * elem_len) as nat,
                len * elem_len,
                elem_len,
            ) matches Ok(read)
            &&& read is File
            &&& fetched(read, left, base) == root
        }),
{
    let len = tree_len(leafs, branches);
    let created = spec_created(len, branches, elem_len, config).unwrap();
    let filled = StoreView { len: leafs, ..created };
    let job = spec_build(filled, branches, leafs, rows, Some(config)).unwrap();
    let left = after_build(hash, file, elem_len, job, leafs);
    let built = StoreView { reader: Some(reader), ..built_store(filled, job) };
    law_finished_build_is_complete(filled, branches, leafs, rows, config);
    law_leafs_from_len(leafs, branches);
    law_build_leaves_cached_rows(
        hash,
        leaves,
        file,
        filled,
        branches,
        leafs,
        rows,
        config,
    );
    law_build_finds_root(hash, leaves, file, filled, branches, leafs, config, base);
    law_cache_completes_tree(leafs, branches, config.rows_to_discard);
    lemma_rows_len_from_base(leafs, branches, config.rows_to_discard + 1);
    let cached = spec_cache_size(leafs, branches, config.rows_to_discard).unwrap();
    let at = ((cached - 1) * elem_len) as nat;
    let start = ((len - 1) * elem_len) as nat;
    assert((len - 1) * elem_len + elem_len == len * elem_len) by (nonlinear_arith);
    assert((cached - 1) * elem_len + elem_len == cached * elem_len) by (nonlinear_arith);
    assert((len - 1) * elem_len == (len - cached) * elem_len + (cached - 1) * elem_len)
        by (nonlinear_arith);
    assert((cached - 1) * elem_len >= 0) by (nonlinear_arith)
        requires
            cached >= 1,
    ;
    assert(leafs * elem_len <= (len - cached) * elem_len) by (nonlinear_arith)
        requires
            leafs <= len - cached,
    ;
    assert(built.stored_at(start) == at);
}

} // verus!
