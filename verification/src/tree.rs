//! The shape of a Merkle tree: how many nodes each row holds, how many nodes the
//! tree has, and how many of them lie above the discarded rows.
//!
//! Row 0 is the base and holds the leafs. Every `branches` nodes of a row have
//! one parent in the next row.
use vstd::arithmetic::div_mod::*;
use vstd::arithmetic::power2::*;
use vstd::prelude::*;
use crate::error::StoreError;

verus! {

/// The number of nodes in row `row` of a tree over `leafs` leafs.
pub open spec fn row_width(leafs: nat, branches: nat, row: nat) -> nat
    recommends
        branches > 0,
    decreases row,
{
    if row == 0 {
        leafs
    } else {
        row_width(leafs, branches, (row - 1) as nat) / branches
    }
}

/// The number of nodes in the rows of a tree over `leafs` leafs.
pub open spec fn tree_len(leafs: nat, branches: nat) -> nat
    decreases leafs,
{
    if leafs == 0 || branches < 2 {
        leafs
    } else {
        proof {
            lemma_div_decreases(leafs as int, branches as int);
        }
        leafs + tree_len(leafs / branches, branches)
    }
}

/// The number of rows that hold a node.
pub open spec fn row_count(leafs: nat, branches: nat) -> nat
    decreases leafs,
{
    if leafs == 0 || branches < 2 {
        leafs
    } else {
        proof {
            lemma_div_decreases(leafs as int, branches as int);
        }
        1 + row_count(leafs / branches, branches)
    }
}

/// The number of nodes in the first `rows` rows.
pub open spec fn rows_len(leafs: nat, branches: nat, rows: nat) -> nat
    decreases rows,
{
    if rows == 0 {
        0
    } else {
        rows_len(leafs, branches, (rows - 1) as nat) + row_width(
            leafs,
            branches,
            (rows - 1) as nat,
        )
    }
}

/// Whether every row but the root splits into whole groups of `branches` nodes:
/// the number of leafs is a power of `branches`.
pub open spec fn is_complete(leafs: nat, branches: nat) -> bool
    decreases leafs,
{
    if leafs <= 1 || branches < 2 {
        leafs == 1
    } else {
        proof {
            lemma_div_decreases(leafs as int, branches as int);
        }
        leafs % branches == 0 && is_complete(leafs / branches, branches)
    }
}

/// Whether a node may have `branches` children.
pub open spec fn is_arity(branches: nat) -> bool {
    branches >= 2 && is_pow2(branches as int)
}

/// Whether a computed count is the expected count, or a computed error the
/// expected error.
pub open spec fn agrees(r: Result<usize, StoreError>, expected: Result<nat, StoreError>) -> bool {
    match (r, expected) {
        (Ok(x), Ok(y)) => x == y,
        (Err(x), Err(y)) => x == y,
        _ => false,
    }
}

/// The number of nodes of the tree over `leafs` leafs, or why there is no such tree.
pub open spec fn spec_tree_len(leafs: nat, branches: nat) -> Result<nat, StoreError> {
    if !is_arity(branches) {
        Err(StoreError::Arity)
    } else if leafs < branches {
        Err(StoreError::LeafMismatch)
    } else if branches == 2 && !is_pow2(leafs as int) {
        Err(StoreError::LeafsNotPow2)
    } else {
        Ok(tree_len(leafs, branches))
    }
}

/// The number of leafs of a tree with `len` nodes, or why there is no such tree.
///
/// A complete tree with `l` leafs has `len` nodes where
/// `l * branches == len * (branches - 1) + 1`. The length of a binary tree is
/// rounded up to the next odd number.
pub open spec fn spec_tree_leafs(len: nat, branches: nat) -> Result<nat, StoreError> {
    let leafs = ((len * (branches - 1) + 1) / branches as int) as nat;
    if !is_arity(branches) {
        Err(StoreError::Arity)
    } else if branches == 2 {
        Ok(len / 2 + 1)
    } else if is_complete(leafs, branches) && tree_len(leafs, branches) == len {
        Ok(leafs)
    } else {
        Err(StoreError::TreeLength)
    }
}

/// The number of nodes above the base and the `rows_to_discard` rows that follow
/// it, or why these rows cannot be discarded.
pub open spec fn spec_cache_size(leafs: nat, branches: nat, rows_to_discard: nat) -> Result<
    nat,
    StoreError,
> {
    match spec_tree_len(leafs, branches) {
        Err(e) => Err(e),
        Ok(_) => if rows_to_discard + 1 < row_count(leafs, branches) {
            Ok(tree_len(row_width(leafs, branches, rows_to_discard + 1), branches))
        } else {
            Err(StoreError::DiscardsAllRows)
        },
    }
}

/// The number of leafs of a tree with `len` nodes and the number of its nodes that
/// are cached, or why a store cannot have this shape.
pub open spec fn spec_geometry(len: nat, branches: nat, rows_to_discard: nat) -> Result<
    (nat, nat),
    StoreError,
> {
    match spec_tree_leafs(len, branches) {
        Err(e) => Err(e),
        Ok(leafs) => if !is_pow2(leafs as int) {
            Err(StoreError::RowCount)
        } else {
            match spec_cache_size(leafs, branches, rows_to_discard) {
                Err(e) => Err(e),
                Ok(cache_size) => Ok((leafs, cache_size)),
            }
        },
    }
}

/// The rows from `rows` on are a tree over row `rows`.
pub proof fn lemma_tree_len_splits(leafs: nat, branches: nat, rows: nat)
    requires
        branches >= 2,
    ensures
        tree_len(leafs, branches) == rows_len(leafs, branches, rows) + tree_len(
            row_width(leafs, branches, rows),
            branches,
        ),
    decreases rows,
{
    if rows > 0 {
        lemma_tree_len_splits(leafs, branches, (rows - 1) as nat);
    }
}

/// A complete tree with `l` leafs has `len` nodes where
/// `len * (branches - 1) == l * branches - 1`.
pub proof fn lemma_complete_tree_len(leafs: nat, branches: nat)
    requires
        branches >= 2,
        is_complete(leafs, branches),
    ensures
        tree_len(leafs, branches) * (branches - 1) == leafs * branches - 1,
        leafs >= 1,
    decreases leafs,
{
    if leafs <= 1 {
        assert(1nat / branches == 0) by {
            lemma_basic_div(1, branches as int);
        }
        assert(tree_len(0, branches) == 0);
        assert(tree_len(1, branches) == 1);
        assert(1 * (branches - 1) == 1 * branches - 1) by (nonlinear_arith);
    } else {
        let up = leafs / branches;
        lemma_div_decreases(leafs as int, branches as int);
        lemma_complete_tree_len(up, branches);
        lemma_fundamental_div_mod(leafs as int, branches as int);
        let t = tree_len(up, branches) as int;
        let b = branches as int;
        let l = leafs as int;
        assert((l + t) * (b - 1) == l * b - 1) by (nonlinear_arith)
            requires
                t * (b - 1) == up * b - 1,
                l == b * up,
        ;
    }
}

/// A tree over more leafs has at least as many nodes.
pub proof fn lemma_tree_len_monotonic(fewer: nat, more: nat, branches: nat)
    requires
        branches >= 2,
        fewer <= more,
    ensures
        tree_len(fewer, branches) <= tree_len(more, branches),
    decreases more,
{
    if fewer > 0 {
        lemma_div_decreases(more as int, branches as int);
        lemma_div_is_ordered(fewer as int, more as int, branches as int);
        lemma_tree_len_monotonic(fewer / branches, more / branches, branches);
    }
}

/// Of two complete trees, the larger has at least `branches` times the leafs of
/// the smaller.
pub proof fn lemma_complete_ordered(fewer: nat, more: nat, branches: nat)
    requires
        branches >= 2,
        is_complete(fewer, branches),
        is_complete(more, branches),
        fewer < more,
    ensures
        fewer <= more / branches,
        is_complete(more / branches, branches),
        more == (more / branches) * branches,
    decreases more,
{
    lemma_fundamental_div_mod(more as int, branches as int);
    assert(more == (more / branches) * branches) by (nonlinear_arith)
        requires
            more == branches * (more / branches),
    ;
    if fewer > 1 {
        lemma_fundamental_div_mod(fewer as int, branches as int);
        let f = (fewer / branches) as int;
        let m = (more / branches) as int;
        let b = branches as int;
        assert(f < m) by (nonlinear_arith)
            requires
                b * f < b * m,
                b > 0,
        ;
        lemma_div_decreases(more as int, branches as int);
        lemma_complete_ordered(fewer / branches, more / branches, branches);
        assert(fewer <= m) by (nonlinear_arith)
            requires
                f <= m / b,
                fewer == b * f,
                m == (m / b) * b,
                b > 0,
        ;
    } else {
        assert(more / branches >= 1) by (nonlinear_arith)
            requires
                more == branches * (more / branches),
                more >= 1,
        ;
    }
}

/// A binary tree is complete where the number of its leafs is a power of two.
pub proof fn lemma_pow2_is_complete(leafs: nat)
    requires
        is_pow2(leafs as int),
    ensures
        is_complete(leafs, 2),
    decreases leafs,
{
    reveal(is_pow2);
    if leafs > 1 {
        lemma_pow2_is_complete(leafs / 2);
    }
}

/// A tree whose length gives `leafs` leafs has at most one node more than that
/// length says.
pub proof fn lemma_leafs_bound_tree_len(len: nat, branches: nat)
    requires
        spec_tree_leafs(len, branches) is Ok,
        spec_tree_len(spec_tree_leafs(len, branches).unwrap(), branches) is Ok,
    ensures
        ({
            let leafs = spec_tree_leafs(len, branches).unwrap();
            let full = tree_len(leafs, branches);
            &&& full == len || (branches == 2 && len % 2 == 0 && full == len + 1)
        }),
{
    let leafs = spec_tree_leafs(len, branches).unwrap();
    if branches == 2 {
        lemma_pow2_is_complete(leafs);
        lemma_complete_tree_len(leafs, 2);
    }
}

/// Every row that is not discarded holds a node, so the base, the discarded rows
/// and the cached rows make up the tree.
pub proof fn lemma_geometry_bounds(len: nat, branches: nat, rows_to_discard: nat)
    requires
        spec_geometry(len, branches, rows_to_discard) is Ok,
    ensures
        ({
            let (leafs, cached) = spec_geometry(len, branches, rows_to_discard).unwrap();
            &&& branches <= leafs <= len
            &&& 1 <= cached <= len
            &&& cached + rows_len(leafs, branches, rows_to_discard + 1) == tree_len(
                leafs,
                branches,
            )
            &&& leafs + cached <= tree_len(leafs, branches)
            &&& tree_len(leafs, branches) == len || (branches == 2 && len % 2 == 0 && tree_len(
                leafs,
                branches,
            ) == len + 1)
        }),
{
    let (leafs, cached) = spec_geometry(len, branches, rows_to_discard).unwrap();
    lemma_leafs_bound_tree_len(len, branches);
    lemma_tree_len_splits(leafs, branches, rows_to_discard + 1);
    lemma_rows_len_from_base(leafs, branches, rows_to_discard + 1);
    lemma_row_count_above(leafs, branches, rows_to_discard + 1);
    lemma_tree_len_monotonic(1, row_width(leafs, branches, rows_to_discard + 1), branches);
}

/// The first rows hold the base.
pub proof fn lemma_rows_len_from_base(leafs: nat, branches: nat, rows: nat)
    requires
        rows >= 1,
    ensures
        rows_len(leafs, branches, rows) >= leafs,
    decreases rows,
{
    if rows > 1 {
        lemma_rows_len_from_base(leafs, branches, (rows - 1) as nat);
    } else {
        assert(rows_len(leafs, branches, 0) == 0);
    }
}

/// Tells whether `n` is a power of two.
pub fn is_power_of_two(n: usize) -> (r: bool)
    ensures
        r == is_pow2(n as int),
{
    reveal(is_pow2);
    if n == 0 {
        return false;
    }
    let mut m: usize = n;
    while m % 2 == 0
        invariant
            m > 0,
            is_pow2(m as int) == is_pow2(n as int),
        decreases m,
    {
        reveal(is_pow2);
        m = m / 2;
    }
    m == 1
}

/// Counts the rows that hold a node.
pub fn get_merkle_tree_row_count(leafs: usize, branches: usize) -> (r: usize)
    requires
        branches >= 2,
    ensures
        r == row_count(leafs as nat, branches as nat),
        r <= leafs,
{
    let mut rows: usize = 0;
    let mut cur: usize = leafs;
    while cur > 0
        invariant
            branches >= 2,
            rows + row_count(cur as nat, branches as nat) == row_count(
                leafs as nat,
                branches as nat,
            ),
            rows + cur <= leafs,
        decreases cur,
    {
        proof {
            lemma_div_decreases(cur as int, branches as int);
        }
        cur = cur / branches;
        rows = rows + 1;
    }
    rows
}

/// Counts the nodes of the tree over `leafs` leafs.
pub fn get_merkle_tree_len(leafs: usize, branches: usize) -> (r: Result<usize, StoreError>)
    requires
        spec_tree_len(leafs as nat, branches as nat) is Ok ==> tree_len(
            leafs as nat,
            branches as nat,
        ) <= usize::MAX,
    ensures
        agrees(r, spec_tree_len(leafs as nat, branches as nat)),
{
    if branches < 2 || !is_power_of_two(branches) {
        return Err(StoreError::Arity);
    }
    if leafs < branches {
        return Err(StoreError::LeafMismatch);
    }
    if branches == 2 && !is_power_of_two(leafs) {
        return Err(StoreError::LeafsNotPow2);
    }
    let mut len: usize = 0;
    let mut cur: usize = leafs;
    while cur > 0
        invariant
            branches >= 2,
            len + tree_len(cur as nat, branches as nat) == tree_len(
                leafs as nat,
                branches as nat,
            ),
            tree_len(leafs as nat, branches as nat) <= usize::MAX,
        decreases cur,
    {
        proof {
            lemma_div_decreases(cur as int, branches as int);
        }
        len = len + cur;
        cur = cur / branches;
    }
    Ok(len)
}

/// The rows above the base of a complete tree have fewer elements than the base.
pub proof fn lemma_above_base(leafs: nat, branches: nat)
    requires
        branches >= 2,
        is_complete(leafs, branches),
    ensures
        tree_len(leafs, branches) < 2 * leafs,
{
    lemma_complete_tree_len(leafs, branches);
    let t = tree_len(leafs, branches);
    assert(t < 2 * leafs) by (nonlinear_arith)
        requires
            t * (branches - 1) == leafs * branches - 1,
            branches >= 2,
            leafs >= 1,
    ;
}

/// The cached rows of a store have fewer elements than its base row.
pub proof fn lemma_cache_below_base(len: nat, branches: nat, rows_to_discard: nat)
    requires
        spec_geometry(len, branches, rows_to_discard) is Ok,
    ensures
        spec_geometry(len, branches, rows_to_discard).unwrap().1 < spec_geometry(
            len,
            branches,
            rows_to_discard,
        ).unwrap().0,
{
    let (leafs, cached) = spec_geometry(len, branches, rows_to_discard).unwrap();
    lemma_geometry_bounds(len, branches, rows_to_discard);
    if branches == 2 {
        lemma_pow2_is_complete(leafs);
    }
    lemma_above_base(leafs, branches);
}

/// Counts the leafs of a tree with `len` nodes.
pub fn get_merkle_tree_leafs(len: usize, branches: usize) -> (r: Result<usize, StoreError>)
    ensures
        agrees(r, spec_tree_leafs(len as nat, branches as nat)),
{
    if branches < 2 || !is_power_of_two(branches) {
        return Err(StoreError::Arity);
    }
    if branches == 2 {
        return Ok(len / 2 + 1);
    }
    let ghost b = branches as nat;
    let ghost candidate = ((len * (b - 1) + 1) / b as int) as nat;
    proof {
        assert(is_complete(1, b));
        lemma_complete_tree_len(1, b);
        assert(tree_len(1, b) == 1) by (nonlinear_arith)
            requires
                tree_len(1, b) * (b - 1) == 1 * b - 1,
                b > 1,
        ;
    }
    // Walks down from the root: `leafs` is the width of the row reached, `cur` the
    // number of nodes not accounted for, the root among them.
    let mut leafs: usize = 1;
    let mut cur: usize = len;
    while cur != 1
        invariant
            b == branches,
            b > 2,
            is_arity(b),
            candidate == ((len * (b - 1) + 1) / b as int) as nat,
            is_complete(leafs as nat, b),
            len - cur + 1 == tree_len(leafs as nat, b),
            leafs >= 1,
            cur >= 1 || len == 0,
        decreases cur,
    {
        if cur == 0 || leafs > (cur - 1) / branches {
            proof {
                if is_complete(candidate, b) && tree_len(candidate, b) == len {
                    lemma_complete_tree_len(candidate, b);
                    if candidate <= leafs {
                        lemma_tree_len_monotonic(candidate, leafs as nat, b);
                        assert(tree_len(candidate, b) >= candidate);
                    } else {
                        lemma_complete_ordered(leafs as nat, candidate, b);
                        lemma_tree_len_monotonic(leafs as nat, candidate / b, b);
                        assert(leafs * b >= cur) by {
                            if cur > 0 {
                                lemma_fundamental_div_mod(cur - 1, b as int);
                                assert(leafs * b >= cur) by (nonlinear_arith)
                                    requires
                                        leafs >= (cur - 1) / b as int + 1,
                                        cur - 1 == b * ((cur - 1) / b as int) + (cur - 1) % (
                                        b as int),
                                        (cur - 1) % (b as int) < b,
                                        b > 0,
                                ;
                            }
                        }
                        assert(candidate >= leafs * b) by (nonlinear_arith)
                            requires
                                candidate == (candidate / b) * b,
                                candidate / b >= leafs,
                                b > 0,
                        ;
                    }
                }
            }
            return Err(StoreError::TreeLength);
        }
        proof {
            lemma_fundamental_div_mod(cur - 1, b as int);
            assert(leafs * b <= cur - 1) by (nonlinear_arith)
                requires
                    leafs <= (cur - 1) / b as int,
                    cur - 1 == b * ((cur - 1) / b as int) + (cur - 1) % (b as int),
                    (cur - 1) % (b as int) >= 0,
                    b > 0,
            ;
            let next = (leafs * b) as nat;
            assert(next > 1) by (nonlinear_arith)
                requires
                    next == leafs * b,
                    leafs >= 1,
                    b > 2,
            ;
            lemma_div_multiples_vanish(leafs as int, b as int);
            lemma_mod_multiples_basic(leafs as int, b as int);
            assert(next as int == b * leafs) by (nonlinear_arith)
                requires
                    next == leafs * b,
            ;
            assert(next / b == leafs);
            assert(is_complete(next, b));
            assert(tree_len(next, b) == next + tree_len(leafs as nat, b));
        }
        leafs = leafs * branches;
        cur = cur - leafs;
    }
    proof {
        lemma_complete_tree_len(leafs as nat, b);
        lemma_div_multiples_vanish(leafs as int, b as int);
        assert(len * (b - 1) + 1 == b * leafs) by (nonlinear_arith)
            requires
                len * (b - 1) == leafs * b - 1,
        ;
        assert(candidate == leafs);
    }
    Ok(leafs)
}

/// Every row below the number of rows holds a node, and is the base of the rows that are
/// left.
pub proof fn lemma_row_count_above(leafs: nat, branches: nat, rows: nat)
    requires
        branches >= 2,
        rows < row_count(leafs, branches),
    ensures
        row_width(leafs, branches, rows) > 0,
        row_count(row_width(leafs, branches, rows), branches) == row_count(leafs, branches) - rows,
    decreases rows,
{
    if rows > 0 {
        lemma_row_count_above(leafs, branches, (rows - 1) as nat);
        let below = row_width(leafs, branches, (rows - 1) as nat);
        lemma_div_decreases(below as int, branches as int);
        assert(row_count(0, branches) == 0);
    }
}

/// Counts the nodes above the base and the `rows_to_discard` rows that follow it.
pub fn get_merkle_tree_cache_size(
    leafs: usize,
    branches: usize,
    rows_to_discard: usize,
) -> (r: Result<usize, StoreError>)
    requires
        spec_tree_len(leafs as nat, branches as nat) is Ok ==> tree_len(
            leafs as nat,
            branches as nat,
        ) <= usize::MAX,
    ensures
        agrees(r, spec_cache_size(leafs as nat, branches as nat, rows_to_discard as nat)),
{
    let len: usize = match get_merkle_tree_len(leafs, branches) {
        Ok(len) => len,
        Err(e) => {
            return Err(e);
        },
    };
    let rows: usize = get_merkle_tree_row_count(leafs, branches);
    proof {
        lemma_div_decreases(leafs as int, branches as int);
    }
    if rows == 0 || rows - 1 <= rows_to_discard {
        return Err(StoreError::DiscardsAllRows);
    }
    let mut cache_size: usize = len;
    let mut cur: usize = leafs;
    let mut row: usize = 0;
    while row <= rows_to_discard
        invariant
            branches >= 2,
            rows_to_discard + 1 < rows == row_count(leafs as nat, branches as nat),
            row <= rows_to_discard + 1,
            cur == row_width(leafs as nat, branches as nat, row as nat),
            cache_size == tree_len(cur as nat, branches as nat),
        decreases rows_to_discard + 1 - row,
    {
        proof {
            lemma_row_count_above(leafs as nat, branches as nat, row as nat);
        }
        cache_size = cache_size - cur;
        cur = cur / branches;
        row = row + 1;
    }
    Ok(cache_size)
}

/// The part of the tree that a store holds, in nodes.
#[derive(Clone, Copy, Debug, PartialEq, Eq, Structural)]
pub struct Geometry {
    /// The number of nodes in the base row.
    pub leafs: usize,
    /// The number of nodes in the cached rows.
    pub cache_size: usize,
}

/// Finds the shape of a store over a tree with `len` nodes.
pub fn store_geometry(len: usize, branches: usize, rows_to_discard: usize) -> (r: Result<
    Geometry,
    StoreError,
>)
    ensures
        match (r, spec_geometry(len as nat, branches as nat, rows_to_discard as nat)) {
            (Ok(g), Ok((leafs, cached))) => g.leafs == leafs && g.cache_size == cached,
            (Err(x), Err(y)) => x == y,
            _ => false,
        },
{
    let leafs: usize = match get_merkle_tree_leafs(len, branches) {
        Ok(leafs) => leafs,
        Err(e) => {
            return Err(e);
        },
    };
    if !is_power_of_two(leafs) {
        return Err(StoreError::RowCount);
    }
    proof {
        if spec_tree_len(leafs as nat, branches as nat) is Ok {
            lemma_leafs_bound_tree_len(len as nat, branches as nat);
        }
    }
    match get_merkle_tree_cache_size(leafs, branches, rows_to_discard) {
        Ok(cache_size) => Ok(Geometry { leafs, cache_size }),
        Err(e) => Err(e),
    }
}

/// The number of leafs is found again from the number of nodes of a complete tree.
pub proof fn law_leafs_from_len(leafs: nat, branches: nat)
    requires
        is_arity(branches),
        is_complete(leafs, branches),
    ensures
        spec_tree_leafs(tree_len(leafs, branches), branches) == Ok::<nat, StoreError>(leafs),
{
    lemma_complete_tree_len(leafs, branches);
    let len = tree_len(leafs, branches);
    lemma_div_multiples_vanish(leafs as int, branches as int);
    assert(len * (branches - 1) + 1 == branches * leafs) by (nonlinear_arith)
        requires
            len * (branches - 1) == leafs * branches - 1,
    ;
    if branches == 2 {
        assert(len == 2 * leafs - 1) by (nonlinear_arith)
            requires
                len * (branches - 1) == leafs * branches - 1,
                branches == 2,
        ;
    }
}

/// The base, the discarded rows and the cached rows make up the whole tree, and
/// the cache holds at least the root.
pub proof fn law_cache_completes_tree(leafs: nat, branches: nat, rows_to_discard: nat)
    requires
        spec_cache_size(leafs, branches, rows_to_discard) is Ok,
    ensures
        rows_len(leafs, branches, rows_to_discard + 1) + spec_cache_size(
            leafs,
            branches,
            rows_to_discard,
        ).unwrap() == tree_len(leafs, branches),
        spec_cache_size(leafs, branches, rows_to_discard).unwrap() >= 1,
{
    lemma_tree_len_splits(leafs, branches, rows_to_discard + 1);
    lemma_row_count_above(leafs, branches, rows_to_discard + 1);
    lemma_tree_len_monotonic(1, row_width(leafs, branches, rows_to_discard + 1), branches);
}

/// The more rows are discarded, the smaller is the cache.
pub proof fn law_cache_shrinks(leafs: nat, branches: nat, fewer: nat, more: nat)
    requires
        fewer < more,
        spec_cache_size(leafs, branches, fewer) is Ok,
        spec_cache_size(leafs, branches, more) is Ok,
    ensures
        spec_cache_size(leafs, branches, more).unwrap() < spec_cache_size(
            leafs,
            branches,
            fewer,
        ).unwrap(),
    decreases more - fewer,
{
    let width = row_width(leafs, branches, fewer + 1);
    lemma_row_count_above(leafs, branches, fewer + 1);
    assert(tree_len(width, branches) == width + tree_len(
        row_width(leafs, branches, fewer + 2),
        branches,
    ));
    if fewer + 1 < more {
        law_cache_shrinks(leafs, branches, fewer + 1, more);
    }
}

} // verus!
