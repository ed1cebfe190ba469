//! What a store gives back.
//!
//! The functions of the store say whom to ask for which bytes. Here the bytes
//! themselves come in: `tree` stands for the bytes of all rows of a tree, `file` for
//! those of the file (or remote object), and it is shown that the plans find in the
//! file what the tree holds.
use vstd::arithmetic::div_mod::*;
use vstd::prelude::*;
use crate::config::ConfigView;
use crate::error::StoreError;
use crate::store::consistency::{spec_is_consistent, spec_is_consistent_v1};
use crate::store::read::{lemma_element_span, lemma_next_element, pieces, ReadTarget};
use crate::store::write::{larger, WriteTarget};
use crate::store::{spec_new, spec_new_from_disk, StoreView};
use crate::tree::{lemma_geometry_bounds, spec_geometry};

verus! {

/// The file after `bytes` have been written at `at`.
pub open spec fn overwrite(file: Seq<u8>, at: nat, bytes: Seq<u8>) -> Seq<u8> {
    file.take(at as int) + bytes + file.skip(at + bytes.len() as int)
}

/// The bytes that a plan finds, in a store with the given file, beside a reader with
/// the given base row.
pub open spec fn fetched(target: ReadTarget, file: Seq<u8>, base: Seq<u8>) -> Seq<u8> {
    match target {
        ReadTarget::Reader { start, end } => base.subrange(start as int, end as int),
        ReadTarget::Oss { start, end } => file.subrange(start as int, end as int),
        ReadTarget::File { offset, len } => file.subrange(offset as int, (offset + len) as int),
    }
}

/// The bytes of the file of a store that holds the base row and the cached rows.
pub open spec fn whole_image(store: StoreView, tree: Seq<u8>) -> Seq<u8> {
    tree.take(store.base_end() as int) + tree.skip(store.cache_index_start as int)
}

/// The bytes of the file of a store that holds the cached rows alone.
pub open spec fn cache_image(store: StoreView, tree: Seq<u8>) -> Seq<u8> {
    tree.skip(store.cache_index_start as int)
}

/// Whether the cached rows of a store begin behind its base row, in the bytes of a tree.
pub open spec fn spans(store: StoreView, tree: Seq<u8>) -> bool {
    store.base_end() <= store.cache_index_start <= tree.len()
}

/// Whether a store without a reader reads the byte `start` where it is written: in the base
/// row, and anywhere where no row is discarded.
pub open spec fn reads_in_place(store: StoreView, start: nat) -> bool {
    ||| start <= store.base_end() && start < store.cache_index_start
    ||| store.base_end() == store.cache_index_start
}

/// A store without a reader gives back the bytes of the base row and of the cached
/// rows.
///
/// Bytes that lie partly in the discarded rows are left out: the first byte behind the
/// base row may be asked for, but is found in the cached rows.
pub proof fn law_whole_store_reads_tree(
    store: StoreView,
    tree: Seq<u8>,
    start: nat,
    end: nat,
    base: Seq<u8>,
)
    requires
        store.reader is None,
        spans(store, tree),
        start <= end <= tree.len(),
        end <= store.base_end() || start >= store.cache_index_start || store.base_end()
            == store.cache_index_start,
    ensures
        store.accepts(start),
        fetched(
            store.target(start, end, (end - start) as nat),
            whole_image(store, tree),
            base,
        ) == tree.subrange(start as int, end as int),
{
    let file = whole_image(store, tree);
    let at = store.stored_at(start) as int;
    assert(file.subrange(at, at + (end - start)) =~= tree.subrange(start as int, end as int));
}

/// A store with a reader gives back the bytes of the base row, from the reader, and
/// those of the cached rows, from the file.
pub proof fn law_cached_store_reads_tree(store: StoreView, tree: Seq<u8>, start: nat, end: nat)
    requires
        store.reader is Some,
        spans(store, tree),
        start <= end <= tree.len(),
        (start < store.base_end() && end <= store.base_end()) || start >= store.cache_index_start,
    ensures
        store.accepts(start),
        fetched(
            store.target(start, end, (end - start) as nat),
            cache_image(store, tree),
            tree.take(store.base_end() as int),
        ) == tree.subrange(start as int, end as int),
{
    let file = cache_image(store, tree);
    let base = tree.take(store.base_end() as int);
    if start < store.base_end() {
        assert(base.subrange(start as int, end as int) =~= tree.subrange(start as int, end as int));
    } else {
        let at = store.stored_at(start) as int;
        assert(file.subrange(at, at + (end - start)) =~= tree.subrange(start as int, end as int));
    }
}

/// A read that begins in the discarded rows is refused, unless it begins exactly where the
/// base row ends.
pub proof fn law_discarded_rows_refused(store: StoreView, start: nat, end: nat, file_len: nat)
    requires
        store.base_end() < start < store.cache_index_start,
    ensures
        !store.accepts(start),
        store.checked_target(start, end, file_len) is Err,
        store.internal_target(start, end) is Err,
{
}

/// An opened store spans the tree whose length it was opened with, its file is as long as
/// one that holds its rows, and such a file has the size that its configuration calls for.
///
/// A binary tree of an even number of elements is left out: there is none, though a
/// store opens with such a length.
pub proof fn law_opened_store_spans_tree(
    store_range: nat,
    branches: nat,
    elem_len: nat,
    config: ConfigView,
    store_size: nat,
    tree: Seq<u8>,
)
    requires
        spec_new_from_disk(store_range, branches, elem_len, config, store_size) is Ok,
        branches != 2 || store_range % 2 == 1,
        tree.len() == store_range * elem_len,
    ensures
        ({
            let store = spec_new_from_disk(
                store_range,
                branches,
                elem_len,
                config,
                store_size,
            ).unwrap();
            &&& spans(store, tree)
            &&& store.byte_len() == tree.len()
            &&& store.store_size == whole_image(store, tree).len() || store.store_size
                == cache_image(store, tree).len()
            &&& spec_is_consistent_v1(
                store_range,
                branches,
                elem_len,
                config,
                whole_image(store, tree).len(),
            ) == Ok::<bool, StoreError>(true)
            &&& spec_is_consistent(
                store_range,
                branches,
                elem_len,
                config,
                cache_image(store, tree).len(),
            ) == Ok::<bool, StoreError>(true)
        }),
{
    lemma_geometry_bounds(store_range, branches, config.rows_to_discard);
    let (leafs, cached) = spec_geometry(store_range, branches, config.rows_to_discard).unwrap();
    assert((store_range - cached) * elem_len == store_range * elem_len - cached * elem_len)
        by (nonlinear_arith);
    assert(leafs * elem_len <= (store_range - cached) * elem_len) by (nonlinear_arith)
        requires
            leafs <= store_range - cached,
    ;
    assert(cached * elem_len >= 0) by (nonlinear_arith);
}

/// The pieces of whole elements are the elements.
proof fn lemma_pieces_are_elements(data: Seq<u8>, elem_len: nat, count: nat, i: nat)
    requires
        elem_len > 0,
        data.len() == count * elem_len,
        i < count,
    ensures
        pieces(data, elem_len).len() == count,
        pieces(data, elem_len)[i as int] == data.subrange(
            (i * elem_len) as int,
            ((i + 1) * elem_len) as int,
        ),
    decreases count,
{
    let width = elem_len as int;
    let rest = data.skip(width);
    let before = (count - 1) as nat;
    lemma_next_element(before, elem_len);
    lemma_next_element(i, elem_len);
    assert(before + 1 == count);
    assert(rest.len() == before * elem_len);
    if before > 0 {
        let j = if i == 0 {
            0
        } else {
            (i - 1) as nat
        };
        lemma_pieces_are_elements(rest, elem_len, before, j);
        lemma_next_element(j, elem_len);
        lemma_element_span(i + 1, count, elem_len);
        if i > 0 {
            assert(rest.subrange((j * elem_len) as int, ((j + 1) * elem_len) as int)
                =~= data.subrange((i * elem_len) as int, ((i + 1) * elem_len) as int));
        }
    } else {
        assert(rest =~= Seq::<u8>::empty());
        assert(pieces(rest, elem_len).len() == 0);
    }
    if i == 0 {
        assert(0 * elem_len == 0) by (nonlinear_arith);
        assert(data.take(width) =~= data.subrange(0, width));
    }
}

/// The elements that a range of elements is cut into are those that are read one by one.
pub proof fn law_range_reads_elements(
    tree: Seq<u8>,
    elem_len: nat,
    start: nat,
    end: nat,
    index: nat,
)
    requires
        elem_len > 0,
        start <= index < end,
        end * elem_len <= tree.len(),
    ensures
        ({
            let elements = pieces(
                tree.subrange((start * elem_len) as int, (end * elem_len) as int),
                elem_len,
            );
            &&& elements.len() == end - start
            &&& elements[index - start] == tree.subrange(
                (index * elem_len) as int,
                ((index + 1) * elem_len) as int,
            )
        }),
{
    let data = tree.subrange((start * elem_len) as int, (end * elem_len) as int);
    let i = (index - start) as nat;
    lemma_element_span(start, end, elem_len);
    lemma_element_span(start, index, elem_len);
    lemma_element_span(index + 1, end, elem_len);
    lemma_next_element(i, elem_len);
    lemma_next_element(index, elem_len);
    lemma_pieces_are_elements(data, elem_len, (end - start) as nat, i);
    assert(data.subrange((i * elem_len) as int, ((i + 1) * elem_len) as int) =~= tree.subrange(
        (index * elem_len) as int,
        ((index + 1) * elem_len) as int,
    ));
}

/// Every element of a run of elements that was copied to the file of a store without a
/// reader is read back.
///
/// Elements of the discarded and cached rows are left out where rows are discarded, as they
/// are where one element is written.
pub proof fn law_copied_elements_read_back(
    store: StoreView,
    file: Seq<u8>,
    start: nat,
    buf: Seq<u8>,
    index: nat,
    base: Seq<u8>,
)
    requires
        store.reader is None,
        !store.oss,
        store.elem_len > 0,
        buf.len() % store.elem_len == 0,
        file.len() == store.store_size,
        start <= index < start + buf.len() / store.elem_len,
        store.write_target(
            start * store.elem_len,
            buf.len(),
            larger(store.len, start + buf.len() / store.elem_len),
        ) is Ok,
        reads_in_place(store, index * store.elem_len),
    ensures
        ({
            let write = store.write_target(
                start * store.elem_len,
                buf.len(),
                larger(store.len, start + buf.len() / store.elem_len),
            ).unwrap();
            let written = overwrite(file, write.offset, buf);
            let after = store.after_write(write);
            &&& written.len() == file.len()
            &&& after.checked_target(
                index * store.elem_len,
                (index + 1) * store.elem_len,
                store.elem_len,
            ) matches Ok(read)
            &&& fetched(read, written, base) == pieces(buf, store.elem_len)[index - start]
        }),
{
    let elem_len = store.elem_len;
    let count = buf.len() / elem_len;
    let i = (index - start) as nat;
    lemma_fundamental_div_mod(buf.len() as int, elem_len as int);
    assert(buf.len() == count * elem_len) by (nonlinear_arith)
        requires
            buf.len() == elem_len * count,
    ;
    lemma_pieces_are_elements(buf, elem_len, count, i);
    lemma_next_element(index, elem_len);
    lemma_next_element(i, elem_len);
    lemma_element_span(start, index, elem_len);
    lemma_element_span(start, start + count, elem_len);
    lemma_element_span(index + 1, start + count, elem_len);
    let elements = larger(store.len, start + count);
    lemma_element_span(index + 1, elements, elem_len);
    let written = overwrite(file, start * elem_len, buf);
    let at = (index * elem_len) as int;
    assert(written.subrange(at, at + elem_len) =~= buf.subrange(
        (i * elem_len) as int,
        ((i + 1) * elem_len) as int,
    ));
}

/// A write that is carried out leaves the file as long as the store records.
pub proof fn law_write_keeps_size(
    store: StoreView,
    file: Seq<u8>,
    start: nat,
    bytes: Seq<u8>,
    elements: nat,
)
    requires
        file.len() == store.store_size,
        store.write_target(start, bytes.len(), elements) is Ok,
    ensures
        ({
            let write = store.write_target(start, bytes.len(), elements).unwrap();
            overwrite(file, write.offset, bytes).len() == store.after_write(write).store_size
        }),
{
}

/// A cut that is carried out leaves the file as long as the store then records, and
/// moves every byte behind the cut to the front by the bytes removed.
pub proof fn law_cut_follows_size(store: StoreView, file: Seq<u8>, file_len: u64, len: usize)
    requires
        file.len() == file_len,
        store.truncate_plan(file_len, len) is Ok,
    ensures
        ({
            let plan = store.truncate_plan(file_len, len).unwrap();
            let cut = file.skip(plan.skip as int);
            &&& cut.len() == store.after_cut(plan).store_size
            &&& cut.len() + len * store.elem_len == file.len()
            &&& forall|i: int|
                0 <= i < cut.len() ==> #[trigger] cut[i] == file[i + len * store.elem_len]
        }),
{
    assert(len * store.elem_len >= 0) by (nonlinear_arith);
}

/// The store and its file after elements have been pushed one after the other; a refused
/// element changes nothing.
pub open spec fn push_all(store: StoreView, file: Seq<u8>, elements: Seq<Seq<u8>>) -> (
    StoreView,
    Seq<u8>,
)
    decreases elements.len(),
{
    if elements.len() == 0 {
        (store, file)
    } else {
        let (before, written) = push_all(store, file, elements.drop_last());
        match before.push_target(elements.last().len()) {
            Ok(target) => (
                before.after_write(target),
                overwrite(written, target.offset, elements.last()),
            ),
            Err(_) => (before, written),
        }
    }
}

/// Of the elements pushed to a new store of `size` elements exactly the first `size` are
/// taken. They lie in the file in their order, and the rest of the file is as it was.
///
/// Elements without bytes are left out: they take no room, so none is refused.
pub proof fn law_pushes_fill_store(
    size: nat,
    elem_len: nat,
    file: Seq<u8>,
    elements: Seq<Seq<u8>>,
)
    requires
        elem_len > 0,
        file.len() == size * elem_len,
        forall|i: int| 0 <= i < elements.len() ==> (#[trigger] elements[i]).len() == elem_len,
    ensures
        ({
            let fresh = spec_new(size, elem_len);
            let (store, written) = push_all(fresh, file, elements);
            let taken = if elements.len() < size {
                elements.len()
            } else {
                size
            };
            &&& store == (StoreView { len: taken, ..fresh })
            &&& written.len() == file.len()
            &&& forall|i: nat|
                i < taken ==> written.subrange(
                    (i * elem_len) as int,
                    ((i + 1) * elem_len) as int,
                ) == #[trigger] elements[i as int]
            &&& written.skip((taken * elem_len) as int) == file.skip((taken * elem_len) as int)
            &&& store.push_target(elem_len) == (if taken < size {
                Ok::<WriteTarget, StoreError>(
                    WriteTarget { offset: taken * elem_len, len: elem_len, elements: taken + 1 },
                )
            } else {
                Err(
                    StoreError::NotEnoughSpace {
                        len: size as usize,
                        elem_len: elem_len as usize,
                        store_size: (size * elem_len) as usize,
                    },
                )
            })
        }),
    decreases elements.len(),
{
    let fresh = spec_new(size, elem_len);
    let (store, written) = push_all(fresh, file, elements);
    let taken = if elements.len() < size {
        elements.len()
    } else {
        size
    };
    if elements.len() == 0 {
        assert(0 * elem_len == 0) by (nonlinear_arith);
    } else {
        let front = elements.drop_last();
        assert forall|i: int| 0 <= i < front.len() implies (#[trigger] front[i]).len()
            == elem_len by {
            assert(front[i] == elements[i]);
        }
        law_pushes_fill_store(size, elem_len, file, front);
        let (before, earlier) = push_all(fresh, file, front);
        let at = front.len();
        assert(elements.last().len() == elem_len);
        if at < size {
            lemma_next_element(at, elem_len);
            lemma_element_span(at + 1, size, elem_len);
            assert(before.len == at);
            assert(written == overwrite(earlier, at * elem_len, elements.last()));
            assert(written.skip(((at + 1) * elem_len) as int) =~= file.skip(
                ((at + 1) * elem_len) as int,
            )) by {
                assert(earlier.skip((at * elem_len) as int).skip(elem_len as int)
                    =~= earlier.skip(((at + 1) * elem_len) as int));
                assert(file.skip((at * elem_len) as int).skip(elem_len as int) =~= file.skip(
                    ((at + 1) * elem_len) as int,
                ));
            }
            assert forall|i: nat| i < taken implies written.subrange(
                (i * elem_len) as int,
                ((i + 1) * elem_len) as int,
            ) == #[trigger] elements[i as int] by {
                lemma_next_element(i, elem_len);
                if i < at {
                    lemma_element_span(i + 1, at, elem_len);
                    assert(front[i as int] == elements[i as int]);
                    assert(written.subrange((i * elem_len) as int, ((i + 1) * elem_len) as int)
                        =~= earlier.subrange(
                        (i * elem_len) as int,
                        ((i + 1) * elem_len) as int,
                    ));
                } else {
                    assert(written.subrange((i * elem_len) as int, ((i + 1) * elem_len) as int)
                        =~= elements.last());
                }
            }
        } else {
            assert forall|i: nat| i < taken implies written.subrange(
                (i * elem_len) as int,
                ((i + 1) * elem_len) as int,
            ) == #[trigger] elements[i as int] by {
                assert(front[i as int] == elements[i as int]);
            }
        }
    }
    lemma_next_element(taken, elem_len);
    if taken < size {
        lemma_element_span(taken + 1, size, elem_len);
    } else {
        assert((size + 1) * elem_len > size * elem_len);
    }
}

/// An element that was written to the file of a store without a reader is read back,
/// and no other element is touched.
///
/// Where rows are discarded, their elements and those from `cache_index_start` on are left
/// out: they are written where they stand in the tree, but refused or read behind the base
/// row.
pub proof fn law_written_element_reads_back(
    store: StoreView,
    file: Seq<u8>,
    index: nat,
    element: Seq<u8>,
    base: Seq<u8>,
)
    requires
        store.reader is None,
        !store.oss,
        store.elem_len > 0,
        element.len() == store.elem_len,
        file.len() == store.store_size,
        store.write_at_target(index, element.len()) is Ok,
        reads_in_place(store, index * store.elem_len),
    ensures
        ({
            let write = store.write_at_target(index, element.len()).unwrap();
            let written = overwrite(file, write.offset, element);
            let after = store.after_write(write);
            let start = index * store.elem_len;
            let end = (index + 1) * store.elem_len;
            &&& written.len() == file.len()
            &&& after.len > index
            &&& after.checked_target(start, end, store.elem_len) matches Ok(read)
            &&& fetched(read, written, base) == element
            &&& forall|other: nat|
                #![trigger other * store.elem_len]
                other != index && (other + 1) * store.elem_len <= file.len()
                    ==> written.subrange(
                    (other * store.elem_len) as int,
                    ((other + 1) * store.elem_len) as int,
                ) == file.subrange(
                    (other * store.elem_len) as int,
                    ((other + 1) * store.elem_len) as int,
                )
        }),
{
    let write = store.write_at_target(index, element.len()).unwrap();
    let written = overwrite(file, write.offset, element);
    let after = store.after_write(write);
    let elem_len = store.elem_len;
    let start = index * elem_len;
    lemma_next_element(index, elem_len);
    assert((index + 1) * elem_len <= after.len * elem_len) by (nonlinear_arith)
        requires
            index + 1 <= after.len,
    ;
    assert(written.subrange(start as int, (start + elem_len) as int) =~= element);
    assert forall|other: nat|
        #![trigger other * elem_len]
        other != index && (other + 1) * elem_len <= file.len() implies written.subrange(
        (other * elem_len) as int,
        ((other + 1) * elem_len) as int,
    ) == file.subrange((other * elem_len) as int, ((other + 1) * elem_len) as int) by {
        lemma_next_element(other, elem_len);
        if other < index {
            assert((other + 1) * elem_len <= index * elem_len) by (nonlinear_arith)
                requires
                    other + 1 <= index,
            ;
        } else {
            assert((index + 1) * elem_len <= other * elem_len) by (nonlinear_arith)
                requires
                    index + 1 <= other,
            ;
        }
        assert(written.subrange((other * elem_len) as int, ((other + 1) * elem_len) as int)
            =~= file.subrange((other * elem_len) as int, ((other + 1) * elem_len) as int));
    }
}

} // verus!
