//! Stable sorting by text keys.

use vstd::prelude::*;

use vstd::set_lib::{lemma_int_range, lemma_subset_equality, set_int_range};

use crate::text::{
    chars_le, lemma_seq_le_antisymmetric, lemma_seq_le_total, lemma_seq_le_transitive, seq_le,
};

verus! {

/// `p` lists the indices of `keys` in the order of a stable sort: each index
/// once, keys non-decreasing, and equal keys in their original order.
pub open spec fn is_stable_order(keys: Seq<Seq<char>>, p: Seq<int>) -> bool {
    &&& p.len() == keys.len()
    &&& forall|k: int| 0 <= k < p.len() ==> 0 <= #[trigger] p[k] < keys.len()
    &&& forall|a: int, b: int| 0 <= a < b < p.len() ==> p[a] != p[b]
    &&& forall|a: int, b: int| 0 <= a < b < p.len() ==> seq_le(keys[p[a]], keys[p[b]])
    &&& forall|a: int, b: int|
        0 <= a < b < p.len() && keys[p[a]] == keys[p[b]] ==> p[a] < p[b]
}

/// The texts of some character vectors.
pub open spec fn key_views(keys: Seq<Vec<char>>) -> Seq<Seq<char>> {
    keys.map_values(|k: Vec<char>| k@)
}

/// `items` rearranged in the stable order of `keys` (`slice::sort_by_key`).
pub fn sort_by_keys<T>(items: Vec<T>, keys: Vec<Vec<char>>) -> (r: Vec<T>)
    requires
        items@.len() == keys@.len(),
    ensures
        exists|p: Seq<int>|
            #![trigger is_stable_order(key_views(keys@), p)]
            is_stable_order(key_views(keys@), p) && r@.len() == p.len()
                && forall|k: int| 0 <= k < p.len() ==> r@[k] == items@[#[trigger] p[k]],
{
    let ghost all_items = items@;
    let ghost all_keys = key_views(keys@);
    assert(keys@.map_values(|k: Vec<char>| k@) =~= all_keys.skip(0));
    let n = items.len();
    let mut rest_items = items;
    let mut rest_keys = keys;
    let mut out: Vec<T> = Vec::new();
    let mut out_keys: Vec<Vec<char>> = Vec::new();
    let ghost mut p: Seq<int> = Seq::empty();
    let mut i: usize = 0;
    while i < n
        invariant
            n == all_items.len(),
            all_keys.len() == n,
            0 <= i <= n,
            rest_items@ == all_items.skip(i as int),
            rest_keys@.len() == n - i,
            rest_keys@.map_values(|k: Vec<char>| k@) == all_keys.skip(i as int),
            out@.len() == i,
            out_keys@.len() == i,
            p.len() == i,
            forall|k: int| 0 <= k < i ==> 0 <= #[trigger] p[k] < i,
            forall|k: int| 0 <= k < i ==> out@[k] == all_items[#[trigger] p[k]],
            forall|k: int| 0 <= k < i ==> out_keys@[k]@ == all_keys[#[trigger] p[k]],
            forall|a: int, b: int| 0 <= a < b < i ==> p[a] != p[b],
            forall|a: int, b: int| 0 <= a < b < i ==> seq_le(all_keys[p[a]], all_keys[p[b]]),
            forall|a: int, b: int|
                0 <= a < b < i && all_keys[p[a]] == all_keys[p[b]] ==> p[a] < p[b],
        decreases n - i,
    {
        proof {
            assert(rest_keys@.map_values(|k: Vec<char>| k@)[0] == rest_keys@[0]@);
        }
        let ghost first_key = rest_keys@[0];
        let ghost old_rest = rest_keys@;
        let item = rest_items.remove(0);
        let key = rest_keys.remove(0);
        proof {
            assert(all_items[i as int] == item);
            assert(rest_items@ =~= all_items.skip(i + 1));
            assert(key == first_key);
            assert(all_keys.skip(i as int)[0] == key@);
            assert forall|j: int| 0 <= j < rest_keys@.len() implies #[trigger] rest_keys@[j]@
                == all_keys.skip(i + 1)[j] by {
                assert(rest_keys@[j] == old_rest[j + 1]);
                assert(old_rest.map_values(|k: Vec<char>| k@)[j + 1] == old_rest[j + 1]@);
            }
            assert(rest_keys@.map_values(|k: Vec<char>| k@) =~= all_keys.skip(i + 1));
        }
        let ghost kk = key@;
        // first position whose key is strictly greater than `key`
        let mut pos: usize = 0;
        while pos < out_keys.len() && chars_le(&out_keys[pos], &key)
            invariant
                0 <= pos <= out_keys@.len(),
                kk == key@,
                forall|j: int| 0 <= j < pos ==> seq_le(#[trigger] out_keys@[j]@, kk),
            decreases out_keys.len() - pos,
        {
            pos = pos + 1;
        }
        let ghost old_p = p;
        let ghost old_keys = out_keys@;
        let ghost old_out = out@;
        out.insert(pos, item);
        out_keys.insert(pos, key);
        proof {
            p = p.insert(pos as int, i as int);
            assert(all_keys[i as int] == kk);
            assert forall|k: int| 0 <= k < i + 1 implies 0 <= #[trigger] p[k] < i + 1 by {
                if k < pos {
                    assert(p[k] == old_p[k]);
                } else if k > pos {
                    assert(p[k] == old_p[k - 1]);
                }
            }
            assert forall|k: int| 0 <= k < i + 1 implies out@[k] == all_items[#[trigger] p[k]] by {
                if k < pos {
                    assert(p[k] == old_p[k]);
                    assert(out@[k] == old_out[k]);
                } else if k > pos {
                    assert(p[k] == old_p[k - 1]);
                    assert(out@[k] == old_out[k - 1]);
                }
            }
            assert forall|k: int| 0 <= k < i + 1 implies out_keys@[k]@ == all_keys[#[trigger] p[k]] by {
                if k < pos {
                    assert(p[k] == old_p[k]);
                    assert(out_keys@[k] == old_keys[k]);
                } else if k > pos {
                    assert(p[k] == old_p[k - 1]);
                    assert(out_keys@[k] == old_keys[k - 1]);
                }
            }
            // keys after `pos` are strictly greater than `kk`
            assert forall|j: int| pos <= j < i implies !seq_le(#[trigger] old_keys[j]@, kk) by {
                if pos < i {
                    assert(!seq_le(old_keys[pos as int]@, kk));
                    if j > pos {
                        assert(seq_le(all_keys[old_p[pos as int]], all_keys[old_p[j]]));
                        if seq_le(old_keys[j]@, kk) {
                            lemma_seq_le_transitive(old_keys[pos as int]@, old_keys[j]@, kk);
                        }
                    }
                }
            }
            assert forall|a: int, b: int| 0 <= a < b < i + 1 implies p[a] != p[b] && seq_le(
                all_keys[p[a]],
                all_keys[p[b]],
            ) && (all_keys[p[a]] == all_keys[p[b]] ==> p[a] < p[b]) by {
                let oa = if a < pos { a } else { a - 1 };
                let ob = if b < pos { b } else { b - 1 };
                if a == pos {
                    assert(p[a] == i);
                    assert(p[b] == old_p[ob]);
                    assert(!seq_le(old_keys[ob]@, kk));
                    lemma_seq_le_total(old_keys[ob]@, kk);
                } else if b == pos {
                    assert(p[b] == i);
                    assert(p[a] == old_p[oa]);
                    assert(seq_le(old_keys[oa]@, kk));
                } else {
                    assert(p[a] == old_p[oa]);
                    assert(p[b] == old_p[ob]);
                }
            }
        }
        i = i + 1;
    }
    proof {
        assert(is_stable_order(all_keys, p));
    }
    out
}

/// A stable order lists every index of the keys.
proof fn lemma_stable_order_covers(keys: Seq<Seq<char>>, p: Seq<int>, x: int)
    requires
        is_stable_order(keys, p),
        0 <= x < keys.len(),
    ensures
        exists|m: int| 0 <= m < p.len() && p[m] == x,
{
    assert forall|i: int, j: int| 0 <= i < p.len() && 0 <= j < p.len() && i != j implies p[i]
        != p[j] by {
        if i > j {
            assert(p[j] != p[i]);
        }
    }
    assert(p.no_duplicates());
    p.unique_seq_to_set();
    let range = set_int_range(0, keys.len() as int);
    lemma_int_range(0, keys.len() as int);
    assert forall|v: int| p.to_set().contains(v) implies range.contains(v) by {
        let m = choose|m: int| 0 <= m < p.len() && p[m] == v;
        assert(0 <= p[m] < keys.len());
    }
    assert(p.to_set().finite()) by {
        vstd::seq_lib::seq_to_set_is_finite(p);
    }
    lemma_subset_equality(p.to_set(), range);
    assert(range.contains(x));
    assert(p.to_set().contains(x));
}

proof fn lemma_stable_orders_agree_at(keys: Seq<Seq<char>>, p: Seq<int>, q: Seq<int>, k: int)
    requires
        is_stable_order(keys, p),
        is_stable_order(keys, q),
        0 <= k < p.len(),
    ensures
        p[k] == q[k],
    decreases k,
{
    assert forall|j: int| 0 <= j < k implies p[j] == q[j] by {
        lemma_stable_orders_agree_at(keys, p, q, j);
    }
    let x = p[k];
    let y = q[k];
    lemma_stable_order_covers(keys, q, x);
    lemma_stable_order_covers(keys, p, y);
    let m = choose|m: int| 0 <= m < q.len() && q[m] == x;
    let n = choose|n: int| 0 <= n < p.len() && p[n] == y;
    if m < k {
        assert(p[m] == q[m]);
        assert(p[m] != p[k]);
    } else if n < k {
        assert(p[n] == q[n]);
        assert(q[n] != q[k]);
    } else if m > k && n > k {
        assert(seq_le(keys[y], keys[x]));
        assert(seq_le(keys[x], keys[y]));
        lemma_seq_le_antisymmetric(keys[x], keys[y]);
        assert(y < x);
        assert(x < y);
    }
}

/// A stable order is unique: the keys alone determine where every item goes,
/// so a stable sort has exactly one possible outcome.
pub proof fn law_stable_order_is_unique(keys: Seq<Seq<char>>, p: Seq<int>, q: Seq<int>)
    requires
        is_stable_order(keys, p),
        is_stable_order(keys, q),
    ensures
        p == q,
{
    assert forall|k: int| 0 <= k < p.len() implies p[k] == q[k] by {
        lemma_stable_orders_agree_at(keys, p, q, k);
    }
    assert(p =~= q);
}

} // verus!
