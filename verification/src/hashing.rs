//! Which bytes building a tree stores, stated of the calls and of the bytes themselves.
use vstd::arithmetic::div_mod::*;
use vstd::arithmetic::power::*;
use vstd::arithmetic::power2::*;
use vstd::prelude::*;
use crate::built::{
    after_build, final_view, hashes_elements,
    law_build_leaves_cached_rows, lemma_complete_row, lemma_groups, lemma_row_bytes_len,
    lemma_rows_bytes_len, lemma_rows_bytes_split, row_bytes, row_hashes, rows_bytes,
    store_after_build,
};
use crate::config::{ConfigView, StoreConfig};
use crate::error::StoreError;
use crate::reading::lemma_pieces_cut;
use crate::shape::lemma_row_width_power;
use crate::store::layer::{
    hashes_of, hashes_to, joined, layer_chunk, LayerChunk, LayerRegion,
    BUILD_CHUNK_NODES,
};
use crate::store::read::{lemma_element_span, lemma_next_element, pieces, ReadTarget};
use crate::store::rows::{spec_build, BuildJob, LayerStep};
use crate::store::{LevelCacheStore, StoreView};
use crate::tree::{
    get_merkle_tree_cache_size, get_merkle_tree_len, is_complete, row_count, row_width, rows_len,
    tree_len,
};

verus! {

/// Hashes of one length lie one behind the other.
proof fn lemma_joined_parts(hashes: Seq<Seq<u8>>, elem_len: nat, i: nat)
    requires
        forall|k: int| 0 <= k < hashes.len() ==> (#[trigger] hashes[k]).len() == elem_len,
    ensures
        joined(hashes).len() == hashes.len() * elem_len,
        i < hashes.len() ==> joined(hashes).subrange(
            (i * elem_len) as int,
            ((i + 1) * elem_len) as int,
        ) == hashes[i as int],
    decreases hashes.len(),
{
    if hashes.len() == 0 {
        assert(0 * elem_len == 0) by (nonlinear_arith);
    } else {
        let rest = hashes.drop_last();
        let n = rest.len();
        assert forall|k: int| 0 <= k < rest.len() implies (#[trigger] rest[k]).len() == elem_len by {
            assert(rest[k] == hashes[k]);
        }
        lemma_joined_parts(rest, elem_len, i);
        lemma_next_element(n, elem_len);
        lemma_next_element(i, elem_len);
        let last = hashes.last();
        assert(last == hashes[n as int]);
        assert(joined(hashes).len() == joined(rest).len() + elem_len);
        if i < n {
            lemma_element_span(i + 1, n, elem_len);
            assert(rest[i as int] == hashes[i as int]);
            assert(joined(hashes).subrange((i * elem_len) as int, ((i + 1) * elem_len) as int)
                =~= joined(rest).subrange((i * elem_len) as int, ((i + 1) * elem_len) as int));
        } else if i == n {
            assert(joined(hashes).subrange((i * elem_len) as int, ((i + 1) * elem_len) as int)
                =~= last);
        }
    }
}

/// Group `i` of the nodes of a chunk is hashed, and the bytes that the hash function returned
/// for it stand at place `i` of the result. There are as many groups as the nodes call for.
pub proof fn law_chunk_stores_hashes<F: Fn(&[u8], usize) -> Vec<u8>>(
    store: LevelCacheStore,
    f: F,
    nodes: &[u8],
    count: usize,
    branches: usize,
    level: usize,
    r: Result<Vec<u8>, StoreError>,
    i: nat,
)
    requires
        call_ensures(
            LevelCacheStore::hash_chunk::<F>,
            (&store, f, nodes, count, branches, level),
            r,
        ),
        branches > 0,
        store@.elem_len > 0,
        forall|g: &[u8], h: Vec<u8>|
            #[trigger] call_ensures(f, (g, level), h) ==> h@.len() == store@.elem_len,
    ensures
        r matches Ok(bytes) ==> {
            &&& bytes@.len() == (count as nat / branches as nat) * store@.elem_len
            &&& i < count as nat / branches as nat <==> i * (branches * store@.elem_len)
                < nodes@.len()
            &&& i < count as nat / branches as nat ==> exists|g: &[u8], h: Vec<u8>|
                {
                    &&& #[trigger] call_ensures(f, (g, level), h)
                    &&& g@ == nodes@.subrange(
                        i * (branches * store@.elem_len),
                        if (i + 1) * (branches * store@.elem_len) < nodes@.len() {
                            (i + 1) * (branches * store@.elem_len)
                        } else {
                            nodes@.len() as int
                        },
                    )
                    &&& h@ == bytes@.subrange(
                        (i * store@.elem_len) as int,
                        ((i + 1) * store@.elem_len) as int,
                    )
                }
        },
        r matches Err(e) ==> e == StoreError::HashedNodeLength,
        nodes@.len() == count * store@.elem_len ==> (r is Ok <==> count % branches == 0),
{
    let e = store@.elem_len;
    let b = branches as nat;
    let group_len = b * e;
    assert(group_len > 0) by (nonlinear_arith)
        requires
            group_len == b * e,
            b > 0,
            e > 0,
    ;
    let expected = (count as nat / b) * e;
    let hashes = choose|hashes: Seq<Seq<u8>>|
        #[trigger] hashes_of(f, nodes@, b * e, level, hashes) && (match r {
            Ok(bytes) => bytes@ == joined(hashes) && bytes@.len() == expected,
            Err(x) => x == StoreError::HashedNodeLength && joined(hashes).len() != expected,
        });
    let groups = pieces(nodes@, group_len);
    assert forall|k: int| 0 <= k < hashes.len() implies (#[trigger] hashes[k]).len() == e by {
        assert(hashes_to(f, groups[k], level, hashes[k]));
    }
    lemma_joined_parts(hashes, e, i);
    lemma_pieces_cut(nodes@, group_len, i);
    let q = count as nat / b;
    let n = hashes.len();
    if r is Ok {
        assert(n == q) by (nonlinear_arith)
            requires
                n * e == q * e,
                e > 0,
        ;
        if i < q {
            assert(hashes_to(f, groups[i as int], level, hashes[i as int]));
        }
    }
    if nodes@.len() == count * e {
        lemma_fundamental_div_mod(count as int, b as int);
        let left = count as nat % b;
        assert(count * e == q * (b * e) + left * e) by (nonlinear_arith)
            requires
                count == b * q + left,
        ;
        lemma_pieces_cut(nodes@, group_len, q);
        if left > 0 {
            assert(left * e > 0) by (nonlinear_arith)
                requires
                    left > 0,
                    e > 0,
            ;
            assert(n > q);
            assert(n * e > q * e) by (nonlinear_arith)
                requires
                    n > q,
                    e > 0,
            ;
        } else {
            assert(0 * e == 0) by (nonlinear_arith);
            if n > q {
                assert(false);
            }
            if q > 0 {
                let last = (q - 1) as nat;
                lemma_pieces_cut(nodes@, group_len, last);
                lemma_next_element(last, group_len);
                assert(last < n);
            }
            assert(n == q);
        }
    }
}

/// The region for the next row begins behind the elements before it and has room for a row as
/// wide as the one that is read.
pub proof fn law_region_lies_behind(
    store: LevelCacheStore,
    width: usize,
    write_start: usize,
    r: LayerRegion,
)
    requires
        call_ensures(LevelCacheStore::layer_region, (&store, width, write_start), r),
    ensures
        r.offset == write_start * store@.elem_len,
        r.len == width * store@.elem_len,
{
}

/// The chunks of a row follow one another from the first node of the row to its last, and so do
/// their windows, each of which begins where the hashes of the nodes before it end.
pub proof fn law_chunks_tile_row(
    store: LevelCacheStore,
    width: usize,
    read_start: usize,
    branches: usize,
    r: Result<Vec<LayerChunk>, StoreError>,
    i: int,
)
    requires
        call_ensures(LevelCacheStore::process_layer, (&store, width, read_start, branches), r),
        branches > 0,
        store@.elem_len > 0,
    ensures
        r is Ok <==> BUILD_CHUNK_NODES % branches == 0,
        r matches Err(e) ==> e == StoreError::ChunkSize,
        r matches Ok(chunks) ==> {
            &&& chunks@.len() == 0 <==> width == 0
            &&& width > 0 ==> chunks@[0].first == read_start && chunks@[0].write_offset == 0
            &&& 0 <= i < chunks@.len() ==> {
                let chunk = chunks@[i];
                &&& 1 <= chunk.count <= BUILD_CHUNK_NODES
                &&& chunk.first >= read_start
                &&& chunk.write_offset * branches == (chunk.first - read_start) * store@.elem_len
                &&& (chunk.count / branches) * store@.elem_len <= chunk.write_len
                &&& chunk.write_offset + chunk.write_len <= width * store@.elem_len
                &&& i + 1 < chunks@.len() ==> {
                    &&& chunks@[i + 1].first == chunk.first + chunk.count
                    &&& chunks@[i + 1].write_offset == chunk.write_offset + chunk.write_len
                    &&& chunk.count % branches == 0
                }
                &&& i + 1 == chunks@.len() ==> chunk.first + chunk.count == read_start + width
            }
        },
{
    let e = store@.elem_len;
    let b = branches as nat;
    let size = BUILD_CHUNK_NODES as nat;
    if r is Ok {
        let chunks = r.unwrap()@;
        let room = (size / b) * e;
        assert(0 * size == 0 && 0 * room == 0);
        if width > 0 {
            assert(chunks[0]@ == layer_chunk(read_start as nat, width as nat, b, e, 0));
        }
        if 0 <= i < chunks.len() {
            let k = i as nat;
            assert(chunks[i]@ == layer_chunk(read_start as nat, width as nat, b, e, k));
            crate::built::law_windows_hold_hashes(read_start as nat, width as nat, b, e, k);
            lemma_fundamental_div_mod(size as int, b as int);
            assert((k * ((size / b) * e)) * b == (k * size) * e) by (nonlinear_arith)
                requires
                    size == b * (size / b),
            ;
            assert(k * size < width);
            if i + 1 < chunks.len() {
                assert(chunks[i + 1]@ == layer_chunk(
                    read_start as nat,
                    width as nat,
                    b,
                    e,
                    k + 1,
                ));
                crate::built::law_windows_hold_hashes(
                    read_start as nat,
                    width as nat,
                    b,
                    e,
                    k + 1,
                );
                lemma_next_element(k, room);
            }
        }
    }
}

/// A row above the base holds, at place `j`, the hash of the `j`-th group of nodes of the row
/// below it, and nothing else. Row 0 holds the leafs.
pub proof fn law_row_elements_are_hashes(
    hash: spec_fn(Seq<u8>, nat) -> Seq<u8>,
    leaves: Seq<u8>,
    leafs: nat,
    branches: nat,
    elem_len: nat,
    row: nat,
    j: nat,
)
    requires
        branches >= 2,
        elem_len > 0,
        is_complete(leafs, branches),
        leaves.len() == leafs * elem_len,
        forall|group: Seq<u8>, level: nat| (#[trigger] hash(group, level)).len() == elem_len,
        row + 1 < row_count(leafs, branches),
        j < leafs as int / pow(branches as int, row + 1),
    ensures
        row_bytes(hash, leaves, branches * elem_len, 0) == leaves,
        row_bytes(hash, leaves, branches * elem_len, row + 1).len() == (leafs as int / pow(
            branches as int,
            row + 1,
        )) * elem_len,
        (j + 1) * (branches * elem_len) <= row_bytes(
            hash,
            leaves,
            branches * elem_len,
            row,
        ).len(),
        row_bytes(hash, leaves, branches * elem_len, row + 1).subrange(
            (j * elem_len) as int,
            ((j + 1) * elem_len) as int,
        ) == hash(
            row_bytes(hash, leaves, branches * elem_len, row).subrange(
                (j * (branches * elem_len)) as int,
                ((j + 1) * (branches * elem_len)) as int,
            ),
            row,
        ),
{
    let group_len = branches * elem_len;
    assert(group_len > 0) by (nonlinear_arith)
        requires
            group_len == branches * elem_len,
            branches > 0,
            elem_len > 0,
    ;
    let below = row_bytes(hash, leaves, group_len, row);
    lemma_row_width_power(leafs, branches, row + 1);
    lemma_row_bytes_len(hash, leaves, leafs, branches, elem_len, row);
    lemma_row_bytes_len(hash, leaves, leafs, branches, elem_len, row + 1);
    lemma_complete_row(leafs, branches, row);
    let width = row_width(leafs, branches, row);
    lemma_groups(width, branches, elem_len);
    let hashes = row_hashes(hash, below, group_len, row);
    assert forall|k: int| 0 <= k < hashes.len() implies (#[trigger] hashes[k]).len()
        == elem_len by {}
    lemma_joined_parts(hashes, elem_len, j);
    lemma_pieces_cut(below, group_len, j);
    lemma_next_element(j, group_len);
    lemma_element_span(j + 1, width / branches, group_len);
    assert(row_width(leafs, branches, row + 1) == width / branches);
    assert(j < width / branches);
}

/// Building a complete tree leaves in the file the rows from the first cached one to the root,
/// one behind the other and nothing else: the file begins with row `rows_to_discard + 1`, and
/// every row follows the one below it.
pub proof fn law_built_file_is_hash_tree(
    hash: spec_fn(Seq<u8>, nat) -> Seq<u8>,
    leaves: Seq<u8>,
    file: Seq<u8>,
    store: StoreView,
    branches: nat,
    leafs: nat,
    rows: nat,
    config: ConfigView,
    row: nat,
    at: nat,
)
    requires
        store.elem_len > 0,
        forall|group: Seq<u8>, level: nat| (#[trigger] hash(group, level)).len() == store.elem_len,
        is_complete(leafs, branches),
        spec_build(store, branches, leafs, rows, Some(config)) is Ok,
        leaves.len() == leafs * store.elem_len,
        file.len() == tree_len(leafs, branches) * store.elem_len,
        file.len() == store.store_size,
        leaves.len() <= file.len(),
        file.take(leaves.len() as int) == leaves,
        config.rows_to_discard + 1 <= row < row_count(leafs, branches),
        at == rows_len(leafs, branches, row) - rows_len(
            leafs,
            branches,
            config.rows_to_discard + 1,
        ),
    ensures
        ({
            let e = store.elem_len;
            let job = spec_build(store, branches, leafs, rows, Some(config)).unwrap();
            let left = after_build(hash, file, e, job, store.len);
            let width = leafs as int / pow(branches as int, row);
            &&& row == config.rows_to_discard + 1 ==> at == 0
            &&& rows_len(leafs, branches, row + 1) == rows_len(leafs, branches, row) + width
            &&& (at + width) * e <= left.len()
            &&& row + 1 == row_count(leafs, branches) ==> width == 1 && (at + width) * e
                == left.len()
            &&& left.subrange((at * e) as int, (at + width) * e) == row_bytes(
                hash,
                leaves,
                branches * e,
                row,
            )
        }),
{
    let e = store.elem_len;
    let first = config.rows_to_discard + 1;
    let all = row_count(leafs, branches);
    let group_len = branches * e;
    let job = spec_build(store, branches, leafs, rows, Some(config)).unwrap();
    let left = after_build(hash, file, e, job, store.len);
    assert(hashes_elements(hash, e));
    law_build_leaves_cached_rows(hash, leaves, file, store, branches, leafs, rows, config);
    lemma_row_width_power(leafs, branches, row);
    lemma_row_bytes_len(hash, leaves, leafs, branches, e, row);
    lemma_complete_row(leafs, branches, row);
    lemma_rows_bytes_len(hash, leaves, leafs, branches, e, first, row);
    lemma_rows_bytes_len(hash, leaves, leafs, branches, e, first, row + 1);
    lemma_rows_bytes_len(hash, leaves, leafs, branches, e, first, all);
    lemma_rows_bytes_split(hash, leaves, group_len, first, row + 1, all);
    let width = row_width(leafs, branches, row);
    let before = rows_bytes(hash, leaves, group_len, first, row);
    let this = row_bytes(hash, leaves, group_len, row);
    let behind = rows_bytes(hash, leaves, group_len, row + 1, all);
    assert(rows_bytes(hash, leaves, group_len, first, row + 1) == before + this);
    assert((at + width) * e == at * e + width * e) by (nonlinear_arith);
    assert(left == (before + this) + behind);
    assert(left.subrange((at * e) as int, ((at + width) * e) as int) =~= this);
}

/// The root that a finished build reads is the last element of the file.
pub proof fn law_root_is_last_element(
    hash: spec_fn(Seq<u8>, nat) -> Seq<u8>,
    leaves: Seq<u8>,
    file: Seq<u8>,
    store: StoreView,
    branches: nat,
    leafs: nat,
    config: ConfigView,
)
    requires
        store.elem_len > 0,
        store.data_width == leafs,
        forall|group: Seq<u8>, level: nat| (#[trigger] hash(group, level)).len() == store.elem_len,
        is_complete(leafs, branches),
        spec_build(store, branches, leafs, row_count(leafs, branches), Some(config)) is Ok,
        leaves.len() == leafs * store.elem_len,
        file.len() == tree_len(leafs, branches) * store.elem_len,
        file.len() == store.store_size,
        leaves.len() <= file.len(),
        file.take(leaves.len() as int) == leaves,
    ensures
        ({
            let e = store.elem_len;
            let rows = row_count(leafs, branches);
            let job = spec_build(store, branches, leafs, rows, Some(config)).unwrap();
            let left = after_build(hash, file, e, job, store.len);
            &&& final_view(job).root_target(store_after_build(store, job)) matches Ok(target)
            &&& target matches ReadTarget::File { offset, len }
            &&& len == e
            &&& offset + len == left.len()
            &&& left.subrange(offset as int, (offset + len) as int) == row_bytes(
                hash,
                leaves,
                branches * e,
                (rows - 1) as nat,
            )
        }),
{
    let e = store.elem_len;
    let rows = row_count(leafs, branches);
    assert(hashes_elements(hash, e));
    let base = Seq::<u8>::empty();
    crate::built::law_build_finds_root(hash, leaves, file, store, branches, leafs, config, base);
    law_build_leaves_cached_rows(hash, leaves, file, store, branches, leafs, rows, config);
    let job = spec_build(store, branches, leafs, rows, Some(config)).unwrap();
    crate::built::lemma_final_view(job);
    crate::tree::law_cache_completes_tree(leafs, branches, config.rows_to_discard);
    let cached = (job.tree_len - job.cache_index_start) as int;
    assert((cached - 1) * e + e == cached * e) by (nonlinear_arith);
    assert((cached - 1) * e >= 0) by (nonlinear_arith)
        requires
            cached >= 1,
    ;
}

/// Building begins where the store holds the leafs, an even number of them, and the rows to
/// discard leave one to keep; and with the whole tree before it.
pub proof fn law_build_begins(
    store: LevelCacheStore,
    branches: usize,
    leafs: usize,
    row_count: usize,
    config: StoreConfig,
    r: Result<BuildJob, StoreError>,
    r_none: Result<BuildJob, StoreError>,
    r_len: Result<usize, StoreError>,
    r_cache: Result<usize, StoreError>,
)
    requires
        call_ensures(
            LevelCacheStore::build,
            (&store, branches, leafs, row_count, Some(&config)),
            r,
        ),
        call_ensures(
            LevelCacheStore::build,
            (&store, branches, leafs, row_count, None::<&StoreConfig>),
            r_none,
        ),
        call_ensures(get_merkle_tree_len, (leafs, branches), r_len),
        call_ensures(
            get_merkle_tree_cache_size,
            (leafs, branches, config.rows_to_discard),
            r_cache,
        ),
    ensures
        !is_pow2(branches as int) ==> r is Err && r->Err_0 == StoreError::Branches,
        is_pow2(branches as int) && store@.len != leafs ==> r is Err && r->Err_0
            == StoreError::InconsistentData,
        is_pow2(branches as int) && store@.len == leafs && leafs % 2 != 0 ==> r is Err && r->Err_0
            == StoreError::OddLeafs,
        is_pow2(branches as int) && store@.len == leafs && leafs % 2 == 0 ==> {
            &&& r_none is Err
            &&& r_none->Err_0 == StoreError::MissingConfig
            &&& r_cache matches Err(e) ==> r is Err && r->Err_0 == e
            &&& r_cache matches Ok(cached) ==> {
                &&& r matches Ok(job)
                &&& r_len matches Ok(len)
                &&& job@.branches == branches
                &&& job@.leafs == leafs
                &&& job@.row_count == row_count
                &&& job@.tree_len == len
                &&& job@.cache_index_start + cached == len
                &&& job@.level == 0
                &&& job@.width == leafs
                &&& job@.level_node_index == 0
            }
        },
{
    if r_cache is Ok && r is Ok {
        crate::tree::law_cache_completes_tree(
            leafs as nat,
            branches as nat,
            config.rows_to_discard as nat,
        );
    }
}

/// The row to hash next is read where it lies in the file, the next row is written right behind
/// it, and it is removed where it is not to be cached. Nothing is left to hash where the root
/// has been reached.
pub proof fn law_next_layer_in_place(
    job: BuildJob,
    store: LevelCacheStore,
    r: Option<LayerStep>,
)
    requires
        call_ensures(BuildJob::next_layer, (&job, &store), r),
        job@.wf(),
        job@.level == 0 ==> store@.len == job@.leafs,
    ensures
        r is None <==> job@.width <= 1,
        r matches Some(step) ==> {
            &&& step.width == job@.width
            &&& step.level == job@.level
            &&& step.write_start == step.read_start + step.width
            &&& step.truncate <==> job@.level_node_index < job@.cache_index_start
            &&& step.truncate ==> step.read_start == 0
            &&& !step.truncate ==> step.read_start + job@.cache_index_start
                == job@.level_node_index
        },
{
}

/// Whether hash `i` stands between two of the places where hashes begin.
pub open spec fn hash_stands(bytes: Seq<u8>, hashes: Seq<Seq<u8>>, begins: Seq<int>, i: int) -> bool {
    &&& 0 <= begins[i] <= begins[i + 1] <= bytes.len()
    &&& bytes.subrange(begins[i], begins[i + 1]) == hashes[i]
}

/// Where each of some hashes begins among the hashes one behind the other.
proof fn lemma_hashes_lie_in_bytes(hashes: Seq<Seq<u8>>) -> (begins: Seq<int>)
    ensures
        begins.len() == hashes.len() + 1,
        begins[0] == 0,
        begins.last() == joined(hashes).len(),
        forall|i: int|
            0 <= i < hashes.len() ==> #[trigger] hash_stands(joined(hashes), hashes, begins, i),
    decreases hashes.len(),
{
    if hashes.len() == 0 {
        seq![0int]
    } else {
        let rest = hashes.drop_last();
        let prior = lemma_hashes_lie_in_bytes(rest);
        let n = rest.len() as int;
        let bytes = joined(hashes);
        let begins = prior.push(bytes.len() as int);
        assert(bytes == joined(rest) + hashes.last());
        assert forall|i: int| 0 <= i < hashes.len() implies #[trigger] hash_stands(
            bytes,
            hashes,
            begins,
            i,
        ) by {
            if i < n {
                assert(hash_stands(joined(rest), rest, prior, i));
                assert(bytes.subrange(begins[i], begins[i + 1]) =~= joined(rest).subrange(
                    prior[i],
                    prior[i + 1],
                ));
            } else {
                assert(prior[n] == prior.last());
                assert(bytes.subrange(begins[i], begins[i + 1]) =~= hashes.last());
            }
        }
        begins
    }
}

/// Whatever the lengths of the hashes, the result is what the hash function returned for the
/// groups of the nodes, one behind the other. Of the two results, the first says where the
/// hashes begin and the second what they are.
pub proof fn law_chunk_joins_hashes<F: Fn(&[u8], usize) -> Vec<u8>>(
    store: LevelCacheStore,
    f: F,
    nodes: &[u8],
    count: usize,
    branches: usize,
    level: usize,
    bytes: Vec<u8>,
) -> (r: (Seq<int>, Seq<Seq<u8>>))
    requires
        call_ensures(
            LevelCacheStore::hash_chunk::<F>,
            (&store, f, nodes, count, branches, level),
            Ok::<Vec<u8>, StoreError>(bytes),
        ),
        branches > 0,
        store@.elem_len > 0,
    ensures
        r.0.len() == r.1.len() + 1,
        r.0[0] == 0,
        r.0.last() == bytes@.len(),
        bytes@.len() == (count as nat / branches as nat) * store@.elem_len,
        forall|i: int|
            0 <= i < r.1.len() ==> #[trigger] hash_stands(bytes@, r.1, r.0, i),
        forall|i: int|
            0 <= i < r.1.len() ==> hashes_to(
                f,
                nodes@.subrange(
                    i * (branches * store@.elem_len),
                    if (i + 1) * (branches * store@.elem_len) < nodes@.len() {
                        (i + 1) * (branches * store@.elem_len)
                    } else {
                        nodes@.len() as int
                    },
                ),
                level,
                #[trigger] r.1[i],
            ),
        r.1.len() * (branches * store@.elem_len) >= nodes@.len(),
        r.1.len() > 0 ==> (r.1.len() - 1) * (branches * store@.elem_len) < nodes@.len(),
{
    let e = store@.elem_len;
    let b = branches as nat;
    let group_len = b * e;
    assert(group_len > 0) by (nonlinear_arith)
        requires
            group_len == b * e,
            b > 0,
            e > 0,
    ;
    let expected = (count as nat / b) * e;
    let done = Ok::<Vec<u8>, StoreError>(bytes);
    let hashes = choose|hashes: Seq<Seq<u8>>|
        #[trigger] hashes_of(f, nodes@, b * e, level, hashes) && (match done {
            Ok(bytes) => bytes@ == joined(hashes) && bytes@.len() == expected,
            Err(x) => x == StoreError::HashedNodeLength && joined(hashes).len() != expected,
        });
    let groups = pieces(nodes@, group_len);
    let begins = lemma_hashes_lie_in_bytes(hashes);
    assert forall|i: int| 0 <= i < hashes.len() implies hashes_to(
        f,
        nodes@.subrange(
            i * (branches * store@.elem_len),
            if (i + 1) * (branches * store@.elem_len) < nodes@.len() {
                (i + 1) * (branches * store@.elem_len)
            } else {
                nodes@.len() as int
            },
        ),
        level,
        #[trigger] hashes[i],
    ) by {
        lemma_pieces_cut(nodes@, group_len, i as nat);
        assert(hashes_to(f, groups[i], level, hashes[i]));
    }
    lemma_pieces_cut(nodes@, group_len, hashes.len());
    if hashes.len() > 0 {
        lemma_pieces_cut(nodes@, group_len, (hashes.len() - 1) as nat);
    }
    (begins, hashes)
}

/// A possible hash is one that the hash function returned for exactly these bytes.
pub proof fn law_hash_is_of_group<F: Fn(&[u8], usize) -> Vec<u8>>(
    f: F,
    group: Seq<u8>,
    level: usize,
    hash: Seq<u8>,
)
    ensures
        hashes_to(f, group, level, hash) <==> exists|g: &[u8], h: Vec<u8>|
            #![trigger call_ensures(f, (g, level), h)]
            g@ == group && h@ == hash && call_ensures(f, (g, level), h),
{
}

/// The leafs are read from the front of the file, and the row above them is written behind all
/// elements that the store holds.
pub proof fn law_first_layer_behind_elements(
    job: BuildJob,
    store: LevelCacheStore,
    step: LayerStep,
)
    requires
        call_ensures(BuildJob::next_layer, (&job, &store), Some(step)),
        job@.level == 0,
    ensures
        step.level == 0,
        step.read_start == 0,
        step.write_start == store@.len,
        step.width == job@.width,
{
}

} // verus!
