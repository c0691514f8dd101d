//! Stable ordering by lexicographic keys.
//!
//! Every sort of the library reduces to ordering items by a key that is a
//! sequence of `u64` compared lexicographically (the order of Rust slices),
//! keeping items with equal keys in their original order.
use vstd::prelude::*;

verus! {

/// Lexicographic order on sequences (a proper prefix comes first).
pub open spec fn lex_lt(a: Seq<u64>, b: Seq<u64>) -> bool
    decreases a.len(),
{
    if a.len() == 0 {
        b.len() > 0
    } else if b.len() == 0 {
        false
    } else if a[0] < b[0] {
        true
    } else if a[0] > b[0] {
        false
    } else {
        lex_lt(a.drop_first(), b.drop_first())
    }
}

pub proof fn lemma_lex_irreflexive(a: Seq<u64>)
    ensures
        !lex_lt(a, a),
    decreases a.len(),
{
    if a.len() > 0 {
        lemma_lex_irreflexive(a.drop_first());
    }
}

pub proof fn lemma_lex_total(a: Seq<u64>, b: Seq<u64>)
    ensures
        a == b || lex_lt(a, b) || lex_lt(b, a),
    decreases a.len(),
{
    if a.len() > 0 && b.len() > 0 && a[0] == b[0] {
        lemma_lex_total(a.drop_first(), b.drop_first());
        if a.drop_first() == b.drop_first() {
            assert(a =~= seq![a[0]] + a.drop_first());
            assert(b =~= seq![b[0]] + b.drop_first());
        }
    } else if a.len() == 0 && b.len() == 0 {
        assert(a =~= b);
    }
}

pub proof fn lemma_lex_asymmetric(a: Seq<u64>, b: Seq<u64>)
    ensures
        !(lex_lt(a, b) && lex_lt(b, a)),
    decreases a.len(),
{
    if a.len() > 0 && b.len() > 0 && a[0] == b[0] {
        lemma_lex_asymmetric(a.drop_first(), b.drop_first());
    }
}

pub proof fn lemma_lex_transitive(a: Seq<u64>, b: Seq<u64>, c: Seq<u64>)
    requires
        lex_lt(a, b),
        lex_lt(b, c),
    ensures
        lex_lt(a, c),
    decreases a.len(),
{
    if a.len() > 0 && b.len() > 0 && c.len() > 0 && a[0] == b[0] && b[0] == c[0] {
        lemma_lex_transitive(a.drop_first(), b.drop_first(), c.drop_first());
    }
}

pub fn lex_less(a: &[u64], b: &[u64]) -> (r: bool)
    ensures
        r == lex_lt(a@, b@),
{
    let mut i: usize = 0;
    assert(a@.skip(0) =~= a@);
    assert(b@.skip(0) =~= b@);
    while i < a.len() && i < b.len() && a[i] == b[i]
        invariant
            i <= a.len(),
            i <= b.len(),
            lex_lt(a@, b@) == lex_lt(a@.skip(i as int), b@.skip(i as int)),
        decreases a.len() - i,
    {
        assert(a@.skip(i as int).drop_first() =~= a@.skip(i + 1));
        assert(b@.skip(i as int).drop_first() =~= b@.skip(i + 1));
        i = i + 1;
    }
    let ghost sa = a@.skip(i as int);
    let ghost sb = b@.skip(i as int);
    if i == a.len() {
        assert(sa.len() == 0);
        i < b.len()
    } else if i == b.len() {
        assert(sb.len() == 0);
        false
    } else {
        assert(sa[0] == a@[i as int] && sb[0] == b@[i as int]);
        a[i] < b[i]
    }
}

/// `a` comes before `b` in the stable order of `keys`.
pub open spec fn before_in(keys: Seq<Seq<u64>>, a: int, b: int) -> bool {
    lex_lt(keys[a], keys[b]) || (keys[a] == keys[b] && a < b)
}

/// `order` lists every index of `keys` once, in ascending key order, equal
/// keys in their original order (the result of a stable sort).
pub open spec fn stable_order(keys: Seq<Seq<u64>>, order: Seq<usize>) -> bool {
    &&& order.len() == keys.len()
    &&& forall|k: int| 0 <= k < order.len() ==> #[trigger] order[k] < keys.len()
    &&& forall|k: int, l: int| 0 <= k < l < order.len() ==> order[k] != order[l]
    &&& forall|k: int, l: int|
        0 <= k < l < order.len() ==> before_in(keys, #[trigger] order[k] as int, #[trigger] order[l] as int)
}

pub open spec fn key_views(keys: Seq<Vec<u64>>) -> Seq<Seq<u64>> {
    keys.map_values(|k: Vec<u64>| k@)
}

/// The indices of `keys` in stable ascending order (insertion sort).
pub fn stable_sort_indices(keys: &Vec<Vec<u64>>) -> (order: Vec<usize>)
    ensures
        stable_order(key_views(keys@), order@),
{
    let ghost kv = key_views(keys@);
    let mut order: Vec<usize> = Vec::new();
    let mut i: usize = 0;
    while i < keys.len()
        invariant
            i <= keys.len(),
            kv == key_views(keys@),
            order@.len() == i,
            forall|k: int| 0 <= k < order@.len() ==> #[trigger] order@[k] < i,
            forall|k: int, l: int| 0 <= k < l < order@.len() ==> order@[k] != order@[l],
            forall|k: int, l: int|
                0 <= k < l < order@.len() ==> before_in(kv, #[trigger] order@[k] as int, #[trigger] order@[l] as int),
        decreases keys.len() - i,
    {
        let mut j: usize = 0;
        while j < order.len() && !lex_less(keys[i].as_slice(), keys[order[j]].as_slice())
            invariant
                i < keys.len(),
                kv == key_views(keys@),
                j <= order@.len(),
                forall|k: int| 0 <= k < order@.len() ==> #[trigger] order@[k] < i,
                forall|k: int| 0 <= k < j ==> !lex_lt(kv[i as int], kv[#[trigger] order@[k] as int]),
            decreases order@.len() - j,
        {
            assert(kv[i as int] == keys@[i as int]@);
            assert(kv[order@[j as int] as int] == keys@[order@[j as int] as int]@);
            j = j + 1;
        }
        proof {
            assert(kv[i as int] == keys@[i as int]@);
            if j < order@.len() {
                assert(kv[order@[j as int] as int] == keys@[order@[j as int] as int]@);
                assert(lex_lt(kv[i as int], kv[order@[j as int] as int]));
            }
        }
        let ghost old_order = order@;
        order.insert(j, i);
        proof {
            let o = order@;
            assert(o == old_order.insert(j as int, i));
            assert forall|k: int| 0 <= k < o.len() implies #[trigger] o[k] < i + 1 by {
                if k < j {
                    assert(o[k] == old_order[k]);
                } else if k > j {
                    assert(o[k] == old_order[k - 1]);
                }
            }
            assert forall|k: int, l: int| 0 <= k < l < o.len() implies o[k] != o[l] by {
                if k < j && l < j {
                    assert(o[k] == old_order[k] && o[l] == old_order[l]);
                } else if k < j && l == j {
                    assert(o[k] == old_order[k]);
                } else if k < j {
                    assert(o[k] == old_order[k] && o[l] == old_order[l - 1]);
                } else if k == j {
                    assert(o[l] == old_order[l - 1]);
                } else {
                    assert(o[k] == old_order[k - 1] && o[l] == old_order[l - 1]);
                }
            }
            assert forall|k: int, l: int| 0 <= k < l < o.len() implies before_in(
                kv,
                #[trigger] o[k] as int,
                #[trigger] o[l] as int,
            ) by {
                let ki = kv[i as int];
                if k < j && l < j {
                    assert(o[k] == old_order[k] && o[l] == old_order[l]);
                } else if k < j && l == j {
                    assert(o[k] == old_order[k]);
                    let kk = kv[old_order[k] as int];
                    assert(!lex_lt(ki, kk));
                    lemma_lex_total(ki, kk);
                } else if k < j {
                    assert(o[k] == old_order[k] && o[l] == old_order[l - 1]);
                } else if k == j {
                    assert(o[l] == old_order[l - 1]);
                    let kj = kv[old_order[j as int] as int];
                    let kl = kv[old_order[l - 1] as int];
                    assert(lex_lt(ki, kj));
                    if l - 1 > j {
                        assert(before_in(kv, old_order[j as int] as int, old_order[l - 1] as int));
                        if lex_lt(kj, kl) {
                            lemma_lex_transitive(ki, kj, kl);
                        }
                    }
                } else {
                    assert(o[k] == old_order[k - 1] && o[l] == old_order[l - 1]);
                }
            }
        }
        i = i + 1;
    }
    order
}

/// Sorting is deterministic: two stable orders of the same keys are the
/// same order, so every stably sorted result of the library is determined
/// by its input alone.
pub proof fn law_stable_order_unique(keys: Seq<Seq<u64>>, a: Seq<usize>, b: Seq<usize>)
    requires
        stable_order(keys, a),
        stable_order(keys, b),
    ensures
        a == b,
{
    assert forall|k: int| 0 <= k < a.len() implies a[k] == b[k] by {
        let x = a[k] as int;
        lemma_order_surjective(keys, b, x);
        let p = choose|p: int| 0 <= p < b.len() && b[p] == x;
        lemma_rank(keys, a, k);
        lemma_rank(keys, b, p);
    }
    assert(a =~= b);
}

/// The index at position `k` of a stable order is the index with exactly
/// `k` indices before it.
proof fn lemma_rank(keys: Seq<Seq<u64>>, a: Seq<usize>, k: int)
    requires
        stable_order(keys, a),
        0 <= k < a.len(),
    ensures
        rank(keys, a[k] as int) == k,
{
    let x = a[k] as int;
    let n = keys.len() as int;
    let pre = Set::new(|y: int| 0 <= y < n && before_in(keys, y, x));
    let positions = vstd::set_lib::set_int_range(0, k);
    vstd::set_lib::lemma_int_range(0, k);
    let f = |p: int| a[p] as int;
    assert(positions.map(f) =~= pre) by {
        assert forall|y: int| pre.contains(y) implies positions.map(f).contains(y) by {
            lemma_order_surjective(keys, a, y);
            let p = choose|p: int| 0 <= p < a.len() && a[p] == y;
            if p >= k {
                if p == k {
                    lemma_before_irreflexive(keys, y);
                } else {
                    assert(before_in(keys, a[k] as int, a[p] as int));
                    lemma_before_asymmetric(keys, x, y);
                }
            }
            assert(positions.contains(p));
            assert(f(p) == y);
        }
        assert forall|y: int| positions.map(f).contains(y) implies pre.contains(y) by {
            let p = choose|p: int| positions.contains(p) && f(p) == y;
            assert(before_in(keys, a[p] as int, a[k] as int));
        }
    }
    assert(vstd::relations::injective_on(f, positions)) by {
        assert forall|p: int, q: int|
            positions.contains(p) && positions.contains(q) && #[trigger] f(p) == #[trigger] f(q) implies p == q by {
            if p < q {
                assert(a[p] != a[q]);
            } else if q < p {
                assert(a[q] != a[p]);
            }
        }
    }
    vstd::set_lib::lemma_map_size(positions, pre, f);
}

pub open spec fn rank(keys: Seq<Seq<u64>>, x: int) -> int {
    Set::new(|y: int| 0 <= y < keys.len() && before_in(keys, y, x)).len() as int
}

proof fn lemma_before_irreflexive(keys: Seq<Seq<u64>>, y: int)
    ensures
        !before_in(keys, y, y),
{
    lemma_lex_irreflexive(keys[y]);
}

proof fn lemma_before_asymmetric(keys: Seq<Seq<u64>>, x: int, y: int)
    ensures
        !(before_in(keys, x, y) && before_in(keys, y, x)),
{
    lemma_lex_asymmetric(keys[x], keys[y]);
    if keys[x] == keys[y] {
        lemma_lex_irreflexive(keys[x]);
    }
}

pub proof fn lemma_order_surjective(keys: Seq<Seq<u64>>, a: Seq<usize>, y: int)
    requires
        stable_order(keys, a),
        0 <= y < keys.len(),
    ensures
        exists|p: int| 0 <= p < a.len() && a[p] == y,
{
    lemma_indices_surjective(a, keys.len(), y);
}

/// `n` distinct indices below `n` list every index below `n`.
pub proof fn lemma_indices_surjective(a: Seq<usize>, n: nat, y: int)
    requires
        a.len() == n,
        forall|k: int| 0 <= k < a.len() ==> #[trigger] a[k] < n,
        forall|k: int, l: int| 0 <= k < l < a.len() ==> a[k] != a[l],
        0 <= y < n,
    ensures
        exists|p: int| 0 <= p < a.len() && a[p] == y,
{
    let n = n as int;
    let idx = vstd::set_lib::set_int_range(0, n);
    vstd::set_lib::lemma_int_range(0, n);
    let f = |p: int| a[p] as int;
    let img = idx.map(f);
    assert(vstd::relations::injective_on(f, idx)) by {
        assert forall|p: int, q: int|
            idx.contains(p) && idx.contains(q) && #[trigger] f(p) == #[trigger] f(q) implies p == q by {
            if p < q {
                assert(a[p] != a[q]);
            } else if q < p {
                assert(a[q] != a[p]);
            }
        }
    }
    vstd::set_lib::lemma_map_size(idx, img, f);
    assert(img.subset_of(idx));
    vstd::set_lib::lemma_subset_equality(img, idx);
    assert(idx.contains(y));
    assert(img.contains(y));
}


/// `order` lists distinct indices below `n`.
pub open spec fn distinct_indices(order: Seq<usize>, n: nat) -> bool {
    &&& forall|k: int| 0 <= k < order.len() ==> #[trigger] order[k] < n
    &&& forall|k: int, l: int| 0 <= k < l < order.len() ==> order[k] != order[l]
}

/// The items at the listed indices, in the listed order (moving them).
pub fn apply_order<T>(items: Vec<T>, order: &Vec<usize>) -> (r: Vec<T>)
    requires
        distinct_indices(order@, items@.len()),
    ensures
        r@.len() == order@.len(),
        forall|k: int| 0 <= k < order@.len() ==> r@[k] == items@[#[trigger] order@[k] as int],
{
    let n = items.len();
    let ghost orig = items@;
    let mut rest = items;
    let mut slots: Vec<Option<T>> = Vec::new();
    while rest.len() > 0
        invariant
            rest@.len() + slots@.len() == n,
            orig.len() == n,
            rest@ == orig.take(rest@.len() as int),
            forall|k: int| 0 <= k < slots@.len() ==> #[trigger] slots@[k] == Some(orig[n - 1 - k]),
        decreases rest@.len(),
    {
        let x = rest.pop().unwrap();
        slots.push(Some(x));
        assert(rest@ =~= orig.take(rest@.len() as int));
    }
    let mut r: Vec<T> = Vec::new();
    let mut k: usize = 0;
    while k < order.len()
        invariant
            k <= order@.len(),
            slots@.len() == n,
            orig.len() == n,
            distinct_indices(order@, n as nat),
            r@.len() == k,
            forall|m: int| 0 <= m < k ==> r@[m] == orig[#[trigger] order@[m] as int],
            forall|j: int|
                0 <= j < n ==> #[trigger] slots@[n - 1 - j] == (if exists|m: int|
                    0 <= m < k && order@[m] == j {
                    None
                } else {
                    Some(orig[j])
                }),
        decreases order@.len() - k,
    {
        let j = order[k];
        let mut tmp: Option<T> = None;
        assert(!exists|m: int| 0 <= m < k && order@[m] == j);
        assert(slots@[n - 1 - j] == Some(orig[j as int]));
        slots.set_and_swap(n - 1 - j, &mut tmp);
        let x = tmp.unwrap();
        r.push(x);
        proof {
            assert forall|jj: int| 0 <= jj < n implies #[trigger] slots@[n - 1 - jj] == (if exists|m: int|
                0 <= m < k + 1 && order@[m] == jj {
                None
            } else {
                Some(orig[jj])
            }) by {
                if jj == j {
                    assert(order@[k as int] == jj);
                } else {
                    if exists|m: int| 0 <= m < k + 1 && order@[m] == jj {
                        let m = choose|m: int| 0 <= m < k + 1 && order@[m] == jj;
                        assert(m < k);
                    }
                }
            }
        }
        k = k + 1;
    }
    r
}

/// `out` is `items` stably sorted by `keys`: ascending key order, items with
/// equal keys in their original order.
pub open spec fn stably_sorted<T>(items: Seq<T>, keys: Seq<Seq<u64>>, out: Seq<T>) -> bool {
    exists|order: Seq<usize>|
        #![trigger stable_order(keys, order)]
        stable_order(keys, order) && out.len() == order.len() && forall|k: int|
            0 <= k < out.len() ==> out[k] == items[#[trigger] order[k] as int]
}

/// Stable sort of `items` by `keys`, one key per item.
pub fn sort_by_keys<T>(items: Vec<T>, keys: &Vec<Vec<u64>>) -> (r: Vec<T>)
    requires
        keys@.len() == items@.len(),
    ensures
        stably_sorted(items@, key_views(keys@), r@),
        r@.len() == items@.len(),
{
    let order = stable_sort_indices(keys);
    let ghost it = items@;
    let r = apply_order(items, &order);
    assert(stable_order(key_views(keys@), order@));
    r
}

} // verus!
