//! The numbers of nodes of a tree, stated of the calls that compute them.
use vstd::arithmetic::div_mod::*;
use vstd::arithmetic::power::*;
use vstd::arithmetic::power2::*;
use vstd::prelude::*;
use crate::error::StoreError;
use crate::tree::{
    get_merkle_tree_cache_size, get_merkle_tree_leafs, get_merkle_tree_len,
    get_merkle_tree_row_count, is_complete, lemma_complete_tree_len, row_count, row_width,
    store_geometry, tree_len, Geometry,
};

verus! {

/// A row holds the leafs divided by a power of the branches.
pub proof fn lemma_row_width_power(leafs: nat, branches: nat, row: nat)
    requires
        branches >= 2,
    ensures
        pow(branches as int, row) > 0,
        row_width(leafs, branches, row) == leafs as int / pow(branches as int, row),
    decreases row,
{
    let b = branches as int;
    lemma_pow_positive(b, row);
    if row == 0 {
        lemma_pow0(b);
        lemma_div_basics(leafs as int);
    } else {
        let below = (row - 1) as nat;
        lemma_row_width_power(leafs, branches, below);
        lemma_pow_adds(b, below, 1);
        lemma_pow1(b);
        lemma_div_denominator(leafs as int, pow(b, below), b);
    }
}

/// The number of rows is the number of times that the leafs can be divided.
pub proof fn lemma_row_count_power(leafs: nat, branches: nat)
    requires
        branches >= 2,
        leafs > 0,
    ensures
        row_count(leafs, branches) >= 1,
        pow(branches as int, (row_count(leafs, branches) - 1) as nat) <= leafs,
        leafs < pow(branches as int, row_count(leafs, branches)),
    decreases leafs,
{
    let b = branches as int;
    let up = leafs / branches;
    let rows = row_count(leafs, branches);
    lemma_div_decreases(leafs as int, b);
    lemma_fundamental_div_mod(leafs as int, b);
    if up == 0 {
        assert(row_count(0, branches) == 0);
        lemma_pow0(b);
        lemma_pow1(b);
        assert(b * up == 0) by (nonlinear_arith)
            requires
                up == 0,
        ;
    } else {
        lemma_row_count_power(up, branches);
        let above = row_count(up, branches);
        lemma_pow_adds(b, 1, (above - 1) as nat);
        lemma_pow_adds(b, 1, above);
        lemma_pow1(b);
        let low = pow(b, (above - 1) as nat);
        let high = pow(b, above);
        assert(b * low <= b * up) by (nonlinear_arith)
            requires
                low <= up,
                b > 0,
        ;
        assert(b * up + b <= b * high) by (nonlinear_arith)
            requires
                up + 1 <= high,
                b > 0,
        ;
    }
}

/// A row exists exactly where the leafs fill it.
proof fn lemma_row_exists(leafs: nat, branches: nat, row: nat)
    requires
        branches >= 2,
        leafs > 0,
    ensures
        row < row_count(leafs, branches) <==> pow(branches as int, row) <= leafs,
{
    let rows = row_count(leafs, branches);
    lemma_row_count_power(leafs, branches);
    if row < rows {
        lemma_pow_increases(branches, row, (rows - 1) as nat);
    } else {
        lemma_pow_increases(branches, rows, row);
    }
}

/// The leafs of a complete tree are a power of the branches.
proof fn lemma_complete_is_power(leafs: nat, branches: nat) -> (k: nat)
    requires
        branches >= 2,
        is_complete(leafs, branches),
    ensures
        pow(branches as int, k) == leafs,
    decreases leafs,
{
    let b = branches as int;
    if leafs <= 1 {
        lemma_pow0(b);
        0
    } else {
        lemma_div_decreases(leafs as int, b);
        lemma_fundamental_div_mod(leafs as int, b);
        let k = lemma_complete_is_power(leafs / branches, branches);
        lemma_pow_adds(b, 1, k);
        lemma_pow1(b);
        k + 1
    }
}

/// A power of the branches is the number of leafs of a complete tree.
proof fn lemma_power_is_complete(branches: nat, k: nat)
    requires
        branches >= 2,
    ensures
        pow(branches as int, k) >= 1,
        is_complete(pow(branches as int, k) as nat, branches),
    decreases k,
{
    let b = branches as int;
    lemma_pow_positive(b, k);
    if k == 0 {
        lemma_pow0(b);
    } else {
        let below = (k - 1) as nat;
        lemma_power_is_complete(branches, below);
        lemma_pow_adds(b, 1, below);
        lemma_pow1(b);
        let up = pow(b, below);
        assert(b * up > 1) by (nonlinear_arith)
            requires
                b >= 2,
                up >= 1,
        ;
        lemma_div_multiples_vanish(up, b);
        lemma_mod_multiples_basic(up, b);
        assert(up * b == b * up) by (nonlinear_arith);
        let all = pow(b, k) as nat;
        assert(all / branches == up as nat);
        assert(all % branches == 0);
    }
}

/// A tree has its leafs and the nodes of the tree over their parents. There is a tree exactly
/// where the branches are a power of two of at least two, there are leafs for one node, and
/// the leafs of a binary tree are a power of two.
pub proof fn law_len_adds_rows(
    leafs: usize,
    branches: usize,
    up: usize,
    r: Result<usize, StoreError>,
    r_up: Result<usize, StoreError>,
)
    requires
        call_ensures(get_merkle_tree_len, (leafs, branches), r),
        call_ensures(get_merkle_tree_len, (up, branches), r_up),
        branches > 0 ==> up == leafs / branches,
    ensures
        r is Ok <==> branches >= 2 && is_pow2(branches as int) && leafs >= branches && (branches
            == 2 ==> is_pow2(leafs as int)),
        branches < 2 || !is_pow2(branches as int) ==> r == Err::<usize, StoreError>(
            StoreError::Arity,
        ),
        branches >= 2 && is_pow2(branches as int) && leafs < branches ==> r == Err::<
            usize,
            StoreError,
        >(StoreError::LeafMismatch),
        branches == 2 && leafs >= 2 && is_pow2(2) && !is_pow2(leafs as int) ==> r == Err::<
            usize,
            StoreError,
        >(StoreError::LeafsNotPow2),
        r matches Ok(len) ==> len == leafs + (if up < branches {
            up
        } else {
            r_up.unwrap()
        }),
        r is Ok && up >= branches ==> r_up is Ok,
{
    if r is Ok {
        let b = branches as int;
        lemma_div_decreases(leafs as int, b);
        if up < branches {
            lemma_basic_div(up as int, b);
            assert(tree_len(0, branches as nat) == 0);
            if up > 0 {
                assert(tree_len(up as nat, branches as nat) == up);
            } else {
                assert(tree_len(up as nat, branches as nat) == 0);
            }
        }
        if branches == 2 {
            reveal(is_pow2);
        }
    }
}

/// The leafs that a length gives are the power of the branches whose complete tree has that
/// length; where there is none the length is refused. A binary length is rounded up to an odd
/// one.
pub proof fn law_leafs_solve_len(len: usize, branches: usize, r: Result<usize, StoreError>)
    requires
        call_ensures(get_merkle_tree_leafs, (len, branches), r),
    ensures
        branches < 2 || !is_pow2(branches as int) ==> r == Err::<usize, StoreError>(
            StoreError::Arity,
        ),
        branches == 2 ==> r == Ok::<usize, StoreError>((len / 2 + 1) as usize),
        branches > 2 && is_pow2(branches as int) ==> match r {
            Ok(leafs) => leafs * branches == len * (branches - 1) + 1 && exists|k: nat|
                #[trigger] pow(branches as int, k) == leafs,
            Err(e) => e == StoreError::TreeLength && forall|k: nat|
                #[trigger] pow(branches as int, k) * branches != len * (branches - 1) + 1,
        },
{
    let n = len as nat;
    let b = branches as nat;
    if branches == 2 {
        assert(is_pow2(2)) by {
            reveal_with_fuel(is_pow2, 3);
        }
    }
    if branches > 2 && is_pow2(branches as int) {
        match r {
            Ok(leafs) => {
                lemma_complete_tree_len(leafs as nat, b);
                let k = lemma_complete_is_power(leafs as nat, b);
                assert(pow(branches as int, k) == leafs);
            },
            Err(_) => {
                assert forall|k: nat| #[trigger] pow(branches as int, k) * branches != len * (
                branches - 1) + 1 by {
                    let l = pow(branches as int, k);
                    lemma_power_is_complete(b, k);
                    if l * branches == len * (branches - 1) + 1 {
                        lemma_complete_tree_len(l as nat, b);
                        lemma_div_multiples_vanish(l, b as int);
                        assert(b as int * l == l * b) by (nonlinear_arith);
                        let t = tree_len(l as nat, b);
                        assert(t == n) by (nonlinear_arith)
                            requires
                                t * (b - 1) == n * (b - 1),
                                b > 1,
                        ;
                    }
                }
            },
        }
    }
}

/// The number of rows is the number of times that the leafs can be divided by the branches.
pub proof fn law_rows_are_powers(leafs: usize, branches: usize, rows: usize)
    requires
        call_ensures(get_merkle_tree_row_count, (leafs, branches), rows),
        branches >= 2,
    ensures
        leafs == 0 <==> rows == 0,
        leafs > 0 ==> pow(branches as int, (rows - 1) as nat) <= leafs < pow(
            branches as int,
            rows as nat,
        ),
{
    if leafs > 0 {
        lemma_row_count_power(leafs as nat, branches as nat);
    }
}

/// Discarding no row leaves all nodes but the leafs; discarding one more row leaves the nodes
/// of that row out. Rows can be discarded as long as one above them is left.
pub proof fn law_cache_loses_rows(
    leafs: usize,
    branches: usize,
    rows_to_discard: usize,
    fewer: usize,
    r_len: Result<usize, StoreError>,
    r: Result<usize, StoreError>,
    r_fewer: Result<usize, StoreError>,
)
    requires
        call_ensures(get_merkle_tree_len, (leafs, branches), r_len),
        call_ensures(get_merkle_tree_cache_size, (leafs, branches, rows_to_discard), r),
        call_ensures(get_merkle_tree_cache_size, (leafs, branches, fewer), r_fewer),
        rows_to_discard > 0 ==> fewer == rows_to_discard - 1,
    ensures
        r_len matches Err(e) ==> r == Err::<usize, StoreError>(e),
        r_len is Ok ==> (r is Ok <==> pow(branches as int, rows_to_discard as nat + 1) <= leafs),
        r_len is Ok && r is Err ==> r == Err::<usize, StoreError>(StoreError::DiscardsAllRows),
        r matches Ok(cached) ==> {
            &&& rows_to_discard == 0 ==> r_len == Ok::<usize, StoreError>((cached + leafs) as usize)
                && cached + leafs == r_len.unwrap()
            &&& rows_to_discard > 0 ==> r_fewer is Ok && r_fewer.unwrap() == cached + leafs as int
                / pow(branches as int, rows_to_discard as nat)
        },
{
    if r_len is Ok {
        let l = leafs as nat;
        let b = branches as nat;
        let d = rows_to_discard as nat;
        lemma_row_exists(l, b, d + 1);
        lemma_row_width_power(l, b, d);
        if r is Ok {
            assert(row_width(l, b, 0) == l);
            assert(row_width(l, b, d + 1) == row_width(l, b, d) / b);
            lemma_row_exists(l, b, d);
            lemma_pow_increases(b, d, d + 1);
            let width = row_width(l, b, d);
            assert(width > 0) by {
                crate::tree::lemma_row_count_above(l, b, d);
            }
            lemma_div_decreases(width as int, b as int);
            assert(tree_len(width, b) == width + tree_len(width / b, b));
        }
    }
}

/// The shape of a store is made of the leafs that its length gives and of the cache over
/// them, where the leafs are a power of two.
pub proof fn law_geometry_joins(
    len: usize,
    branches: usize,
    rows_to_discard: usize,
    leafs: usize,
    r: Result<Geometry, StoreError>,
    r_leafs: Result<usize, StoreError>,
    r_cache: Result<usize, StoreError>,
)
    requires
        call_ensures(store_geometry, (len, branches, rows_to_discard), r),
        call_ensures(get_merkle_tree_leafs, (len, branches), r_leafs),
        call_ensures(get_merkle_tree_cache_size, (leafs, branches, rows_to_discard), r_cache),
        r_leafs matches Ok(l) ==> leafs == l,
    ensures
        r_leafs matches Err(e) ==> r == Err::<Geometry, StoreError>(e),
        r_leafs is Ok && !is_pow2(leafs as int) ==> r == Err::<Geometry, StoreError>(
            StoreError::RowCount,
        ),
        r_leafs is Ok && is_pow2(leafs as int) ==> r == (match r_cache {
            Ok(cache_size) => Ok::<Geometry, StoreError>(Geometry { leafs, cache_size }),
            Err(e) => Err(e),
        }),
{
}

/// The leafs are found again from the length of a complete tree.
pub proof fn law_len_gives_leafs(
    leafs: usize,
    branches: usize,
    k: nat,
    len: usize,
    r: Result<usize, StoreError>,
)
    requires
        call_ensures(get_merkle_tree_len, (leafs, branches), Ok::<usize, StoreError>(len)),
        call_ensures(get_merkle_tree_leafs, (len, branches), r),
        pow(branches as int, k) == leafs,
    ensures
        r == Ok::<usize, StoreError>(leafs),
{
    lemma_power_is_complete(branches as nat, k);
    crate::tree::law_leafs_from_len(leafs as nat, branches as nat);
}

} // verus!
