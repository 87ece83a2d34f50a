//! Stable ordering by byte-string keys: the order in which listings are
//! reported.
//!
//! `sort_order(names)` is the stable sort of the keys `names`: the one
//! sequence that lists each index once, in byte order of the keys, with equal
//! keys kept in their original order. `name_order` computes it by insertion.
use crate::text::{
    lex_le, lex_le_bytes, lemma_lex_le_antisymmetric, lemma_lex_le_reflexive, lemma_lex_le_total,
    lemma_lex_le_transitive,
};
use vstd::prelude::*;

verus! {

/// The character sequences of a list of strings.
pub open spec fn string_views(v: Seq<String>) -> Seq<Seq<char>> {
    v.map_values(|s: String| s@)
}

/// The bytes of a list of byte slices.
pub open spec fn byte_views(v: Seq<&[u8]>) -> Seq<Seq<u8>> {
    v.map_values(|k: &[u8]| k@)
}

/// A list of indices, as integers.
pub open spec fn index_views(v: Seq<usize>) -> Seq<int> {
    v.map_values(|k: usize| k as int)
}

/// `ord` with index `i` placed after the last index whose name is no later
/// than the name of `i`, looking from the end of `ord`.
spec fn insert_index(names: Seq<Seq<u8>>, ord: Seq<int>, i: int) -> Seq<int>
    decreases ord.len(),
{
    if ord.len() == 0 {
        seq![i]
    } else if lex_le(names[ord.last()], names[i]) {
        ord.push(i)
    } else {
        insert_index(names, ord.drop_last(), i).push(ord.last())
    }
}

/// The indices `0..n` of `names`, each inserted in turn.
spec fn sort_prefix(names: Seq<Seq<u8>>, n: nat) -> Seq<int>
    decreases n,
{
    if n == 0 {
        Seq::empty()
    } else {
        insert_index(names, sort_prefix(names, (n - 1) as nat), n - 1)
    }
}

/// `ord` lists every index of `names` once, in key order, with equal keys
/// in index order: the stable sort of `names`.
pub open spec fn is_stable_order(names: Seq<Seq<u8>>, ord: Seq<int>) -> bool {
    &&& ord.len() == names.len()
    &&& forall|y: int| #[trigger] ord.contains(y) <==> 0 <= y < names.len()
    &&& sorted_by_name(names, ord)
}

/// The indices of `names` in key order, ties kept in index order.
pub open spec fn sort_order(names: Seq<Seq<u8>>) -> Seq<int> {
    choose|ord: Seq<int>| is_stable_order(names, ord)
}

/// Index `x` is reported before index `y`: its name is no later, and on equal
/// names it came first.
pub open spec fn before(names: Seq<Seq<u8>>, x: int, y: int) -> bool {
    lex_le(names[x], names[y]) && (names[x] == names[y] ==> x < y)
}

/// Every index in `ord` is reported before each one that follows it.
pub open spec fn sorted_by_name(names: Seq<Seq<u8>>, ord: Seq<int>) -> bool {
    forall|j: int, k: int| 0 <= j < k < ord.len() ==> before(names, #[trigger] ord[j], #[trigger] ord[k])
}

proof fn lemma_insert_index_is_insert(names: Seq<Seq<u8>>, ord: Seq<int>, i: int, k: int)
    requires
        0 <= k <= ord.len(),
        forall|j: int| k <= j < ord.len() ==> !lex_le(names[#[trigger] ord[j]], names[i]),
        k > 0 ==> lex_le(names[ord[k - 1]], names[i]),
    ensures
        insert_index(names, ord, i) == ord.insert(k, i),
    decreases ord.len(),
{
    if ord.len() == 0 {
        assert(ord.insert(k, i) =~= seq![i]);
    } else if k == ord.len() {
        assert(ord.insert(k, i) =~= ord.push(i));
    } else {
        assert(!lex_le(names[ord[ord.len() - 1]], names[i]));
        let d = ord.drop_last();
        assert forall|j: int| k <= j < d.len() implies !lex_le(names[#[trigger] d[j]], names[i]) by {
            assert(d[j] == ord[j]);
        }
        if k > 0 {
            assert(d[k - 1] == ord[k - 1]);
        }
        lemma_insert_index_is_insert(names, d, i, k);
        assert(d.insert(k, i).push(ord.last()) =~= ord.insert(k, i));
    }
}

proof fn lemma_insert_index_props(names: Seq<Seq<u8>>, ord: Seq<int>, i: int)
    requires
        sorted_by_name(names, ord),
        forall|j: int| 0 <= j < ord.len() ==> #[trigger] ord[j] < i,
    ensures
        insert_index(names, ord, i).len() == ord.len() + 1,
        forall|y: int| #[trigger] insert_index(names, ord, i).contains(y) <==> (ord.contains(y) || y == i),
        sorted_by_name(names, insert_index(names, ord, i)),
    decreases ord.len(),
{
    let r = insert_index(names, ord, i);
    if ord.len() == 0 {
        assert forall|y: int| #[trigger] r.contains(y) <==> (ord.contains(y) || y == i) by {
            if r.contains(y) {
                assert(r[0] == i);
            }
            if y == i {
                assert(r[0] == y);
            }
        }
    } else {
        let last = ord.last();
        if lex_le(names[last], names[i]) {
            assert(r == ord.push(i));
            assert forall|y: int| #[trigger] r.contains(y) <==> (ord.contains(y) || y == i) by {
                if r.contains(y) {
                    let w = choose|w: int| 0 <= w < r.len() && r[w] == y;
                    if w < ord.len() {
                        assert(ord[w] == y);
                    }
                }
                if ord.contains(y) {
                    let w = choose|w: int| 0 <= w < ord.len() && ord[w] == y;
                    assert(r[w] == y);
                }
                if y == i {
                    assert(r[ord.len() as int] == y);
                }
            }
            assert forall|j: int, k: int| 0 <= j < k < r.len() implies before(names, #[trigger] r[j], #[trigger] r[k]) by {
                if k < ord.len() {
                    assert(r[j] == ord[j] && r[k] == ord[k]);
                } else {
                    assert(r[j] == ord[j]);
                    assert(r[k] == i);
                    if j < ord.len() - 1 {
                        assert(before(names, ord[j], ord[ord.len() - 1]));
                        lemma_lex_le_transitive(names[ord[j]], names[last], names[i]);
                    }
                    assert(ord[j] < i);
                }
            }
        } else {
            let d = ord.drop_last();
            assert forall|j: int, k: int| 0 <= j < k < d.len() implies before(names, #[trigger] d[j], #[trigger] d[k]) by {
                assert(d[j] == ord[j] && d[k] == ord[k]);
            }
            assert forall|j: int| 0 <= j < d.len() implies #[trigger] d[j] < i by {
                assert(d[j] == ord[j]);
            }
            lemma_insert_index_props(names, d, i);
            let rd = insert_index(names, d, i);
            assert(r == rd.push(last));
            assert forall|y: int| #[trigger] r.contains(y) <==> (ord.contains(y) || y == i) by {
                if r.contains(y) {
                    let w = choose|w: int| 0 <= w < r.len() && r[w] == y;
                    if w < rd.len() {
                        assert(rd[w] == y);
                        assert(rd.contains(y));
                        if d.contains(y) {
                            let u = choose|u: int| 0 <= u < d.len() && d[u] == y;
                            assert(ord[u] == y);
                        }
                    } else {
                        assert(ord[ord.len() - 1] == y);
                    }
                }
                if ord.contains(y) {
                    let w = choose|w: int| 0 <= w < ord.len() && ord[w] == y;
                    if w < ord.len() - 1 {
                        assert(d[w] == y);
                        assert(d.contains(y));
                        assert(rd.contains(y));
                        let u = choose|u: int| 0 <= u < rd.len() && rd[u] == y;
                        assert(r[u] == y);
                    } else {
                        assert(r[rd.len() as int] == y);
                    }
                }
                if y == i {
                    assert(rd.contains(y));
                    let u = choose|u: int| 0 <= u < rd.len() && rd[u] == y;
                    assert(r[u] == y);
                }
            }
            assert forall|j: int, k: int| 0 <= j < k < r.len() implies before(names, #[trigger] r[j], #[trigger] r[k]) by {
                if k < rd.len() {
                    assert(r[j] == rd[j] && r[k] == rd[k]);
                } else {
                    assert(r[k] == last);
                    assert(r[j] == rd[j]);
                    assert(rd.contains(rd[j]));
                    if rd[j] == i {
                        lemma_lex_le_total(names[i], names[last]);
                        if names[i] == names[last] {
                            lemma_lex_le_reflexive(names[last]);
                        }
                    } else {
                        assert(d.contains(rd[j]));
                        let u = choose|u: int| 0 <= u < d.len() && d[u] == rd[j];
                        assert(ord[u] == rd[j]);
                        assert(before(names, ord[u], ord[ord.len() - 1]));
                    }
                }
            }
        }
    }
}

proof fn lemma_sort_prefix_props(names: Seq<Seq<u8>>, n: nat)
    ensures
        sort_prefix(names, n).len() == n,
        forall|y: int| #[trigger] sort_prefix(names, n).contains(y) <==> 0 <= y < n,
        sorted_by_name(names, sort_prefix(names, n)),
    decreases n,
{
    if n == 0 {
    } else {
        let p = sort_prefix(names, (n - 1) as nat);
        lemma_sort_prefix_props(names, (n - 1) as nat);
        assert forall|j: int| 0 <= j < p.len() implies #[trigger] p[j] < n - 1 by {
            assert(p.contains(p[j]));
        }
        lemma_insert_index_props(names, p, n - 1);
    }
}

/// The reported order lists every index of `names` exactly once, orders the
/// names, and keeps equal names in their original order.
pub proof fn lemma_sort_order_is_stable_sort(names: Seq<Seq<u8>>)
    ensures
        sort_order(names).len() == names.len(),
        forall|y: int| #[trigger] sort_order(names).contains(y) <==> 0 <= y < names.len(),
        forall|j: int, k: int|
            0 <= j < k < names.len() ==> lex_le(
                names[#[trigger] sort_order(names)[j]],
                names[#[trigger] sort_order(names)[k]],
            ),
        forall|j: int, k: int|
            0 <= j < k < names.len() && names[#[trigger] sort_order(names)[j]]
                == names[#[trigger] sort_order(names)[k]] ==> sort_order(names)[j] < sort_order(
                names,
            )[k],
{
    lemma_sort_prefix_props(names, names.len());
    assert(is_stable_order(names, sort_prefix(names, names.len())));
    assert(is_stable_order(names, sort_order(names)));
}

/// No two indices are each reported before the other.
proof fn lemma_before_asymmetric(names: Seq<Seq<u8>>, x: int, y: int)
    ensures
        !(before(names, x, y) && before(names, y, x)),
{
    if before(names, x, y) && before(names, y, x) {
        lemma_lex_le_antisymmetric(names[x], names[y]);
    }
}

/// Two orders sorted by name that list the same indices, as many, are equal.
proof fn lemma_sorted_unique(names: Seq<Seq<u8>>, o1: Seq<int>, o2: Seq<int>)
    requires
        o1.len() == o2.len(),
        sorted_by_name(names, o1),
        sorted_by_name(names, o2),
        forall|y: int| #[trigger] o1.contains(y) <==> o2.contains(y),
    ensures
        o1 == o2,
    decreases o1.len(),
{
    let n = o1.len();
    if n == 0 {
        assert(o1 =~= o2);
    } else {
        let a = o1.last();
        let b = o2.last();
        if a != b {
            assert(o1.contains(a));
            assert(o2.contains(a));
            let k = choose|k: int| 0 <= k < n && o2[k] == a;
            assert(k != n - 1);
            assert(before(names, o2[k], o2[n - 1]));
            assert(o2.contains(b));
            assert(o1.contains(b));
            let j = choose|j: int| 0 <= j < n && o1[j] == b;
            assert(j != n - 1);
            assert(before(names, o1[j], o1[n - 1]));
            lemma_before_asymmetric(names, a, b);
        }
        let d1 = o1.drop_last();
        let d2 = o2.drop_last();
        assert forall|j: int, k: int| 0 <= j < k < d1.len() implies before(names, #[trigger] d1[j], #[trigger] d1[k]) by {
            assert(d1[j] == o1[j] && d1[k] == o1[k]);
        }
        assert forall|j: int, k: int| 0 <= j < k < d2.len() implies before(names, #[trigger] d2[j], #[trigger] d2[k]) by {
            assert(d2[j] == o2[j] && d2[k] == o2[k]);
        }
        assert forall|y: int| #[trigger] d1.contains(y) <==> d2.contains(y) by {
            if d1.contains(y) {
                let j = choose|j: int| 0 <= j < d1.len() && d1[j] == y;
                assert(o1[j] == y);
                assert(before(names, o1[j], o1[n - 1]));
                assert(y != a);
                assert(o1.contains(y));
                assert(o2.contains(y));
                let k = choose|k: int| 0 <= k < n && o2[k] == y;
                assert(k != n - 1);
                assert(d2[k] == y);
            }
            if d2.contains(y) {
                let k = choose|k: int| 0 <= k < d2.len() && d2[k] == y;
                assert(o2[k] == y);
                assert(before(names, o2[k], o2[n - 1]));
                assert(y != b);
                assert(o2.contains(y));
                assert(o1.contains(y));
                let j = choose|j: int| 0 <= j < n && o1[j] == y;
                assert(j != n - 1);
                assert(d1[j] == y);
            }
        }
        lemma_sorted_unique(names, d1, d2);
        assert(o1 =~= d1.push(a));
        assert(o2 =~= d2.push(b));
    }
}

/// The stable sort of `names` is the only order of its indices that is
/// stable and sorted.
pub proof fn lemma_stable_order_unique(names: Seq<Seq<u8>>, ord: Seq<int>)
    requires
        is_stable_order(names, ord),
    ensures
        ord == sort_order(names),
{
    lemma_sort_order_is_stable_sort(names);
    let o = sort_order(names);
    assert(is_stable_order(names, o));
    assert forall|y: int| #[trigger] ord.contains(y) <==> o.contains(y) by {
        if ord.contains(y) {
            assert(0 <= y < names.len());
        }
        if o.contains(y) {
            assert(0 <= y < names.len());
        }
    }
    lemma_sorted_unique(names, ord, o);
}


/// The indices of `names` in key order, ties kept in index order.
pub fn name_order(names: &Vec<&[u8]>) -> (r: Vec<usize>)
    ensures
        index_views(r@) == sort_order(byte_views(names@)),
{
    let ghost nv = byte_views(names@);
    let n = names.len();
    let mut ord: Vec<usize> = Vec::new();
    let mut i: usize = 0;
    assert(index_views(ord@) =~= sort_prefix(nv, 0));
    while i < n
        invariant
            n == names.len(),
            i <= n,
            nv == byte_views(names@),
            index_views(ord@) == sort_prefix(nv, i as nat),
            forall|j: int| 0 <= j < ord.len() ==> #[trigger] ord[j] < i,
        decreases n - i,
    {
        let mut k = ord.len();
        while k > 0 && !lex_le_bytes(names[ord[k - 1]], names[i])
            invariant
                n == names.len(),
                i < n,
                nv == byte_views(names@),
                k <= ord.len(),
                forall|j: int| 0 <= j < ord.len() ==> #[trigger] ord[j] < i,
                forall|j: int| k <= j < ord.len() ==> !lex_le(nv[#[trigger] ord[j] as int], nv[i as int]),
            decreases k,
        {
            k = k - 1;
        }
        proof {
            let ov = index_views(ord@);
            assert forall|j: int| k <= j < ov.len() implies !lex_le(nv[#[trigger] ov[j]], nv[i as int]) by {
                assert(ov[j] == ord[j] as int);
            }
            if k > 0 {
                assert(ov[k - 1] == ord[k - 1] as int);
            }
            lemma_insert_index_is_insert(nv, ov, i as int, k as int);
            assert(index_views(ord@.insert(k as int, i)) =~= ov.insert(k as int, i as int));
        }
        ord.insert(k, i);
        i = i + 1;
    }
    proof {
        lemma_sort_prefix_props(nv, n as nat);
        lemma_stable_order_unique(nv, sort_prefix(nv, n as nat));
    }
    ord
}

} // verus!
