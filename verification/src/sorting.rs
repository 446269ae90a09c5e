//! Stable sorting of index lists by a `u64` key, as `sort_by_key` on a slice does it.

use vstd::prelude::*;

verus! {

/// Whether key `a` may stand before key `b` in the requested direction.
pub open spec fn key_le(a: u64, b: u64, desc: bool) -> bool {
    if desc {
        a >= b
    } else {
        a <= b
    }
}

/// Inserts `x` into the sorted list `sorted` after every element whose key does not come after it.
pub open spec fn insert_by_key(sorted: Seq<usize>, x: usize, keys: Seq<u64>, desc: bool) -> Seq<usize>
    decreases sorted.len(),
{
    if sorted.len() == 0 {
        seq![x]
    } else if key_le(keys[sorted.last() as int], keys[x as int], desc) {
        sorted.push(x)
    } else {
        insert_by_key(sorted.drop_last(), x, keys, desc).push(sorted.last())
    }
}

/// The stable sort of `idxs` by `keys[i]`, ascending or (with `desc`) descending: elements with
/// equal keys keep their relative order.
pub open spec fn stable_sort_by_key(idxs: Seq<usize>, keys: Seq<u64>, desc: bool) -> Seq<usize>
    decreases idxs.len(),
{
    if idxs.len() == 0 {
        seq![]
    } else {
        insert_by_key(stable_sort_by_key(idxs.drop_last(), keys, desc), idxs.last(), keys, desc)
    }
}

/// Every index of `idxs` is a position of `keys`.
pub open spec fn indices_below(idxs: Seq<usize>, n: nat) -> bool {
    forall|i: int| 0 <= i < idxs.len() ==> #[trigger] idxs[i] < n
}

proof fn lemma_insert_in_range(sorted: Seq<usize>, x: usize, keys: Seq<u64>, desc: bool, n: nat)
    requires
        indices_below(sorted, n),
        x < n,
    ensures
        indices_below(insert_by_key(sorted, x, keys, desc), n),
        insert_by_key(sorted, x, keys, desc).len() == sorted.len() + 1,
    decreases sorted.len(),
{
    if sorted.len() > 0 && !key_le(keys[sorted.last() as int], keys[x as int], desc) {
        lemma_insert_in_range(sorted.drop_last(), x, keys, desc, n);
    }
}

pub proof fn lemma_sort_in_range(idxs: Seq<usize>, keys: Seq<u64>, desc: bool, n: nat)
    requires
        indices_below(idxs, n),
    ensures
        indices_below(stable_sort_by_key(idxs, keys, desc), n),
        stable_sort_by_key(idxs, keys, desc).len() == idxs.len(),
    decreases idxs.len(),
{
    if idxs.len() > 0 {
        lemma_sort_in_range(idxs.drop_last(), keys, desc, n);
        lemma_insert_in_range(stable_sort_by_key(idxs.drop_last(), keys, desc), idxs.last(), keys, desc, n);
    }
}

proof fn lemma_insert_members(sorted: Seq<usize>, x: usize, keys: Seq<u64>, desc: bool)
    ensures
        forall|q: int|
            0 <= q < insert_by_key(sorted, x, keys, desc).len() ==> #[trigger] insert_by_key(
                sorted,
                x,
                keys,
                desc,
            )[q] == x || sorted.contains(insert_by_key(sorted, x, keys, desc)[q]),
    decreases sorted.len(),
{
    if sorted.len() > 0 && !key_le(keys[sorted.last() as int], keys[x as int], desc) {
        lemma_insert_members(sorted.drop_last(), x, keys, desc);
        let r = insert_by_key(sorted, x, keys, desc);
        let r0 = insert_by_key(sorted.drop_last(), x, keys, desc);
        assert forall|q: int| 0 <= q < r.len() implies #[trigger] r[q] == x || sorted.contains(r[q]) by {
            if q < r0.len() {
                if r0[q] != x {
                    let w = choose|w: int| 0 <= w < sorted.drop_last().len() && sorted.drop_last()[w] == r0[q];
                    assert(sorted[w] == r[q]);
                }
            } else {
                assert(sorted[sorted.len() - 1] == r[q]);
            }
        }
    } else if sorted.len() > 0 {
        let r = insert_by_key(sorted, x, keys, desc);
        assert forall|q: int| 0 <= q < r.len() implies #[trigger] r[q] == x || sorted.contains(r[q]) by {
            if q < sorted.len() {
                assert(sorted[q] == r[q]);
            }
        }
    }
}

/// The keys of `s` come in the requested order.
pub open spec fn keys_ordered(s: Seq<usize>, keys: Seq<u64>, desc: bool) -> bool {
    forall|i: int, j: int| 0 <= i < j < s.len() ==> key_le(keys[#[trigger] s[i] as int], keys[#[trigger] s[j] as int], desc)
}

proof fn lemma_insert_props(sorted: Seq<usize>, x: usize, keys: Seq<u64>, desc: bool)
    requires
        keys_ordered(sorted, keys, desc),
    ensures
        insert_by_key(sorted, x, keys, desc).len() == sorted.len() + 1,
        insert_by_key(sorted, x, keys, desc).contains(x),
        forall|q: int| 0 <= q < sorted.len() ==> insert_by_key(sorted, x, keys, desc).contains(#[trigger] sorted[q]),
        keys_ordered(insert_by_key(sorted, x, keys, desc), keys, desc),
        sorted.no_duplicates() && !sorted.contains(x) ==> insert_by_key(sorted, x, keys, desc).no_duplicates(),
    decreases sorted.len(),
{
    let r = insert_by_key(sorted, x, keys, desc);
    lemma_insert_members(sorted, x, keys, desc);
    if sorted.len() == 0 {
        assert(r[0] == x);
    } else if key_le(keys[sorted.last() as int], keys[x as int], desc) {
        assert(r =~= sorted.push(x));
        assert(r[sorted.len() as int] == x);
        assert forall|q: int| 0 <= q < sorted.len() implies r.contains(#[trigger] sorted[q]) by {
            assert(r[q] == sorted[q]);
        }
        assert forall|i: int, j: int| 0 <= i < j < r.len() implies key_le(keys[#[trigger] r[i] as int], keys[#[trigger] r[j] as int], desc) by {
            if j == sorted.len() {
                if i < sorted.len() - 1 {
                    assert(key_le(keys[sorted[i] as int], keys[sorted[sorted.len() - 1] as int], desc));
                }
            } else {
                assert(r[i] == sorted[i] && r[j] == sorted[j]);
            }
        }
    } else {
        let d = sorted.drop_last();
        let last = sorted.last();
        assert forall|i: int, j: int| 0 <= i < j < d.len() implies key_le(keys[#[trigger] d[i] as int], keys[#[trigger] d[j] as int], desc) by {
            assert(d[i] == sorted[i] && d[j] == sorted[j]);
        }
        lemma_insert_props(d, x, keys, desc);
        lemma_insert_members(d, x, keys, desc);
        let r0 = insert_by_key(d, x, keys, desc);
        assert(r =~= r0.push(last));
        assert(r[r0.len() as int] == last);
        assert forall|q: int| 0 <= q < sorted.len() implies r.contains(#[trigger] sorted[q]) by {
            if q < d.len() {
                assert(r0.contains(d[q]));
                let w = choose|w: int| 0 <= w < r0.len() && r0[w] == d[q];
                assert(r[w] == sorted[q]);
            }
        }
        let w = choose|w: int| 0 <= w < r0.len() && r0[w] == x;
        assert(r[w] == x);
        assert forall|i: int, j: int| 0 <= i < j < r.len() implies key_le(keys[#[trigger] r[i] as int], keys[#[trigger] r[j] as int], desc) by {
            if j < r0.len() {
                assert(r[i] == r0[i] && r[j] == r0[j]);
            } else {
                assert(r[i] == r0[i]);
                if r0[i] != x {
                    let v = choose|v: int| 0 <= v < d.len() && d[v] == r0[i];
                    assert(key_le(keys[sorted[v] as int], keys[sorted[sorted.len() - 1] as int], desc));
                }
            }
        }
        if sorted.no_duplicates() && !sorted.contains(x) {
            assert(!d.contains(x)) by {
                if d.contains(x) {
                    let v = choose|v: int| 0 <= v < d.len() && d[v] == x;
                    assert(sorted[v] == x);
                }
            }
            assert(d.no_duplicates()) by {
                assert forall|i: int, j: int| 0 <= i < d.len() && 0 <= j < d.len() && i != j implies d[i] != d[j] by {
                    assert(d[i] == sorted[i] && d[j] == sorted[j]);
                }
            }
            assert(!r0.contains(last)) by {
                if r0.contains(last) {
                    let v = choose|v: int| 0 <= v < r0.len() && r0[v] == last;
                    if r0[v] != x {
                        let u = choose|u: int| 0 <= u < d.len() && d[u] == r0[v];
                        assert(sorted[u] == sorted[sorted.len() - 1]);
                    } else {
                        assert(sorted.contains(x));
                    }
                }
            }
            assert forall|i: int, j: int| 0 <= i < r.len() && 0 <= j < r.len() && i != j implies r[i] != r[j] by {
                if i < r0.len() && j < r0.len() {
                    assert(r[i] == r0[i] && r[j] == r0[j]);
                } else if i < r0.len() {
                    assert(r[i] == r0[i]);
                } else if j < r0.len() {
                    assert(r[j] == r0[j]);
                }
            }
        }
    }
}

/// The sorted list holds the input's elements, each as often, with the keys in order.
pub proof fn lemma_sort_props(idxs: Seq<usize>, keys: Seq<u64>, desc: bool)
    ensures
        keys_ordered(stable_sort_by_key(idxs, keys, desc), keys, desc),
        forall|q: int| 0 <= q < idxs.len() ==> stable_sort_by_key(idxs, keys, desc).contains(#[trigger] idxs[q]),
        idxs.no_duplicates() ==> stable_sort_by_key(idxs, keys, desc).no_duplicates(),
    decreases idxs.len(),
{
    if idxs.len() > 0 {
        let d = idxs.drop_last();
        let s0 = stable_sort_by_key(d, keys, desc);
        lemma_sort_props(d, keys, desc);
        lemma_sort_members(d, keys, desc);
        lemma_insert_props(s0, idxs.last(), keys, desc);
        let r = stable_sort_by_key(idxs, keys, desc);
        assert forall|q: int| 0 <= q < idxs.len() implies r.contains(#[trigger] idxs[q]) by {
            if q < d.len() {
                assert(s0.contains(d[q]));
                let w = choose|w: int| 0 <= w < s0.len() && s0[w] == d[q];
                assert(r.contains(s0[w]));
            }
        }
        if idxs.no_duplicates() {
            assert(d.no_duplicates()) by {
                assert forall|i: int, j: int| 0 <= i < d.len() && 0 <= j < d.len() && i != j implies d[i] != d[j] by {
                    assert(d[i] == idxs[i] && d[j] == idxs[j]);
                }
            }
            assert(!s0.contains(idxs.last())) by {
                if s0.contains(idxs.last()) {
                    let w = choose|w: int| 0 <= w < s0.len() && s0[w] == idxs.last();
                    assert(d.contains(s0[w]));
                    let v = choose|v: int| 0 <= v < d.len() && d[v] == s0[w];
                    assert(idxs[v] == idxs[idxs.len() - 1]);
                }
            }
        }
    }
}

/// Every element of the sorted list is an element of the input list.
pub proof fn lemma_sort_members(idxs: Seq<usize>, keys: Seq<u64>, desc: bool)
    ensures
        forall|q: int|
            0 <= q < stable_sort_by_key(idxs, keys, desc).len() ==> idxs.contains(
                #[trigger] stable_sort_by_key(idxs, keys, desc)[q],
            ),
    decreases idxs.len(),
{
    if idxs.len() > 0 {
        let s0 = stable_sort_by_key(idxs.drop_last(), keys, desc);
        lemma_sort_members(idxs.drop_last(), keys, desc);
        lemma_insert_members(s0, idxs.last(), keys, desc);
        let r = stable_sort_by_key(idxs, keys, desc);
        assert forall|q: int| 0 <= q < r.len() implies idxs.contains(#[trigger] r[q]) by {
            if r[q] == idxs.last() {
                assert(idxs[idxs.len() - 1] == r[q]);
            } else {
                assert(s0.contains(r[q]));
                let w = choose|w: int| 0 <= w < s0.len() && s0[w] == r[q];
                assert(idxs.drop_last().contains(s0[w]));
                let v = choose|v: int| 0 <= v < idxs.drop_last().len() && idxs.drop_last()[v] == s0[w];
                assert(idxs[v] == r[q]);
            }
        }
    }
}

fn key_le_exec(a: u64, b: u64, desc: bool) -> (r: bool)
    ensures
        r == key_le(a, b, desc),
{
    if desc {
        a >= b
    } else {
        a <= b
    }
}

/// Returns `idxs` stably sorted by `keys` (ascending, or descending when `desc`).
pub fn sort_indices_by_key(idxs: &Vec<usize>, keys: &Vec<u64>, desc: bool) -> (r: Vec<usize>)
    requires
        indices_below(idxs@, keys@.len()),
    ensures
        r@ == stable_sort_by_key(idxs@, keys@, desc),
        indices_below(r@, keys@.len()),
{
    let mut r: Vec<usize> = Vec::new();
    let n = idxs.len();
    for i in 0..n
        invariant
            n == idxs@.len(),
            indices_below(idxs@, keys@.len()),
            r@ == stable_sort_by_key(idxs@.take(i as int), keys@, desc),
            indices_below(r@, keys@.len()),
    {
        let x = idxs[i];
        assert(idxs@.take(i + 1).drop_last() =~= idxs@.take(i as int));
        let ghost target = insert_by_key(r@, x, keys@, desc);
        let mut p = r.len();
        assert(r@.take(p as int) =~= r@);
        assert(r@.skip(p as int) =~= Seq::<usize>::empty());
        loop
            invariant
                0 <= p <= r@.len(),
                indices_below(r@, keys@.len()),
                x < keys@.len(),
                target == insert_by_key(r@.take(p as int), x, keys@, desc) + r@.skip(p as int),
            ensures
                0 <= p <= r@.len(),
                target == r@.take(p as int) + seq![x] + r@.skip(p as int),
            decreases p,
        {
            if p == 0 {
                assert(r@.take(0) =~= Seq::<usize>::empty());
                assert(target =~= r@.take(p as int) + seq![x] + r@.skip(p as int));
                break;
            }
            let y = r[p - 1];
            if key_le_exec(keys[y], keys[x], desc) {
                assert(r@.take(p as int).last() == y);
                assert(insert_by_key(r@.take(p as int), x, keys@, desc) == r@.take(p as int).push(x));
                assert(target =~= r@.take(p as int) + seq![x] + r@.skip(p as int));
                break;
            }
            let ghost tp = r@.take(p as int);
            assert(tp.last() == y);
            assert(tp.drop_last() =~= r@.take(p - 1));
            assert(insert_by_key(tp, x, keys@, desc) == insert_by_key(r@.take(p - 1), x, keys@, desc).push(y));
            assert(r@.skip(p - 1) =~= seq![y] + r@.skip(p as int));
            assert(insert_by_key(r@.take(p - 1), x, keys@, desc).push(y) + r@.skip(p as int)
                =~= insert_by_key(r@.take(p - 1), x, keys@, desc) + r@.skip(p - 1));
            p = p - 1;
        }
        r.insert(p, x);
        assert(r@ =~= target);
        proof {
            lemma_insert_in_range(stable_sort_by_key(idxs@.take(i as int), keys@, desc), x, keys@, desc, keys@.len());
        }
    }
    assert(idxs@.take(n as int) =~= idxs@);
    r
}


/// Inserts `x` into the key-sorted list `sorted` after every element whose key does not come
/// after its key.
pub open spec fn insert_pair<T>(sorted: Seq<(u64, T)>, x: (u64, T), desc: bool) -> Seq<(u64, T)>
    decreases sorted.len(),
{
    if sorted.len() == 0 {
        seq![x]
    } else if key_le(sorted.last().0, x.0, desc) {
        sorted.push(x)
    } else {
        insert_pair(sorted.drop_last(), x, desc).push(sorted.last())
    }
}

/// The stable sort of `s` by the first component of its pairs.
pub open spec fn stable_sort_pairs<T>(s: Seq<(u64, T)>, desc: bool) -> Seq<(u64, T)>
    decreases s.len(),
{
    if s.len() == 0 {
        seq![]
    } else {
        insert_pair(stable_sort_pairs(s.drop_last(), desc), s.last(), desc)
    }
}

proof fn lemma_insert_pair_members<T>(sorted: Seq<(u64, T)>, x: (u64, T), desc: bool)
    ensures
        insert_pair(sorted, x, desc).len() == sorted.len() + 1,
        forall|q: int|
            0 <= q < insert_pair(sorted, x, desc).len() ==> #[trigger] insert_pair(sorted, x, desc)[q] == x
                || sorted.contains(insert_pair(sorted, x, desc)[q]),
    decreases sorted.len(),
{
    if sorted.len() > 0 && !key_le(sorted.last().0, x.0, desc) {
        lemma_insert_pair_members(sorted.drop_last(), x, desc);
        let r = insert_pair(sorted, x, desc);
        let r0 = insert_pair(sorted.drop_last(), x, desc);
        assert forall|q: int| 0 <= q < r.len() implies #[trigger] r[q] == x || sorted.contains(r[q]) by {
            if q < r0.len() {
                if r0[q] != x {
                    let w = choose|w: int| 0 <= w < sorted.drop_last().len() && sorted.drop_last()[w] == r0[q];
                    assert(sorted[w] == r[q]);
                }
            } else {
                assert(sorted[sorted.len() - 1] == r[q]);
            }
        }
    } else if sorted.len() > 0 {
        let r = insert_pair(sorted, x, desc);
        assert forall|q: int| 0 <= q < r.len() implies #[trigger] r[q] == x || sorted.contains(r[q]) by {
            if q < sorted.len() {
                assert(sorted[q] == r[q]);
            }
        }
    }
}

/// The sort keeps the length, and every element of the sorted list is an element of the input.
pub proof fn lemma_sort_pairs_members<T>(s: Seq<(u64, T)>, desc: bool)
    ensures
        stable_sort_pairs(s, desc).len() == s.len(),
        forall|q: int|
            0 <= q < stable_sort_pairs(s, desc).len() ==> s.contains(#[trigger] stable_sort_pairs(s, desc)[q]),
    decreases s.len(),
{
    if s.len() > 0 {
        let s0 = stable_sort_pairs(s.drop_last(), desc);
        lemma_sort_pairs_members(s.drop_last(), desc);
        lemma_insert_pair_members(s0, s.last(), desc);
        let r = stable_sort_pairs(s, desc);
        assert forall|q: int| 0 <= q < r.len() implies s.contains(#[trigger] r[q]) by {
            if r[q] == s.last() {
                assert(s[s.len() - 1] == r[q]);
            } else {
                assert(s0.contains(r[q]));
                let w = choose|w: int| 0 <= w < s0.len() && s0[w] == r[q];
                assert(s.drop_last().contains(s0[w]));
                let v = choose|v: int| 0 <= v < s.drop_last().len() && s.drop_last()[v] == s0[w];
                assert(s[v] == r[q]);
            }
        }
    }
}

/// Sorts `(key, value)` pairs stably by key, ascending or (with `desc`) descending.
pub fn sort_pairs_by_key<T>(v: Vec<(u64, T)>, desc: bool) -> (r: Vec<(u64, T)>)
    ensures
        r@ == stable_sort_pairs(v@, desc),
{
    let ghost vs = v@;
    let mut r: Vec<(u64, T)> = Vec::new();
    for x in it: v.into_iter()
        invariant
            it.seq() == vs,
            r@ == stable_sort_pairs(vs.take(it.index() as int), desc),
    {
        let ghost i = it.index() as int;
        assert(vs.take(i + 1).drop_last() =~= vs.take(i));
        assert(vs.take(i + 1).last() == x);
        let ghost target = insert_pair(r@, x, desc);
        let mut p = r.len();
        assert(r@.take(p as int) =~= r@);
        assert(r@.skip(p as int) =~= Seq::<(u64, T)>::empty());
        loop
            invariant
                0 <= p <= r@.len(),
                target == insert_pair(r@.take(p as int), x, desc) + r@.skip(p as int),
            ensures
                0 <= p <= r@.len(),
                target == r@.take(p as int) + seq![x] + r@.skip(p as int),
            decreases p,
        {
            if p == 0 {
                assert(r@.take(0) =~= Seq::<(u64, T)>::empty());
                assert(target =~= r@.take(p as int) + seq![x] + r@.skip(p as int));
                break;
            }
            let yk = r[p - 1].0;
            if key_le_exec(yk, x.0, desc) {
                assert(r@.take(p as int).last() == r@[p - 1]);
                assert(target =~= r@.take(p as int) + seq![x] + r@.skip(p as int));
                break;
            }
            let ghost tp = r@.take(p as int);
            let ghost y = r@[p - 1];
            assert(tp.last() == y);
            assert(tp.drop_last() =~= r@.take(p - 1));
            assert(r@.skip(p - 1) =~= seq![y] + r@.skip(p as int));
            assert(insert_pair(r@.take(p - 1), x, desc).push(y) + r@.skip(p as int)
                =~= insert_pair(r@.take(p - 1), x, desc) + r@.skip(p - 1));
            p = p - 1;
        }
        r.insert(p, x);
        assert(r@ =~= target);
    }
    assert(vs.take(vs.len() as int) =~= vs);
    r
}

} // verus!
