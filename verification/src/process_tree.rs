//! The process tree below a root process, from a snapshot of every running
//! process and its parent. Taking the snapshot and terminating processes is
//! left to the caller; this module decides what belongs to the tree and in
//! which order it is stopped.
use crate::text::{
    all_digits, chars_of, digits_value, in_set, is_ascii_digit, lemma_nonempty_all, lemma_split_append_plain, lines,
    parse_unsigned, parse_unsigned_max, split_by, split_lines, split_words, views, words, CharSet,
};
use vstd::prelude::*;

verus! {

/// `child` is listed in the snapshot with parent `parent`.
pub open spec fn child_of(snapshot: Seq<(u32, u32)>, child: u32, parent: u32) -> bool {
    exists|j: int| 0 <= j < snapshot.len() && #[trigger] snapshot[j] == (child, parent)
}

/// `path` leads from `root` down to its last process, each step from a
/// process to one of its children.
pub open spec fn is_path(snapshot: Seq<(u32, u32)>, root: u32, path: Seq<u32>) -> bool {
    &&& path.len() >= 1
    &&& path[0] == root
    &&& forall|i: int| 0 <= i < path.len() - 1 ==> child_of(snapshot, #[trigger] path[i + 1], path[i])
}

/// `x` is `root` or a descendant of it.
pub open spec fn in_tree(snapshot: Seq<(u32, u32)>, root: u32, x: u32) -> bool {
    exists|path: Seq<u32>| #[trigger] is_path(snapshot, root, path) && path.last() == x
}

/// What a list of the tree must be: `root` last, no process twice, every
/// other process before its parent, and exactly the processes of the tree.
pub open spec fn tree_listing(snapshot: Seq<(u32, u32)>, root: u32, out: Seq<u32>) -> bool {
    &&& out.len() >= 1
    &&& out.last() == root
    &&& forall|a: int, b: int| 0 <= a < b < out.len() ==> out[a] != out[b]
    &&& forall|k: int|
        0 <= k < out.len() - 1 ==> exists|j: int|
            k < j < out.len() && child_of(snapshot, #[trigger] out[k], out[j])
    &&& forall|x: u32| in_tree(snapshot, root, x) <==> out.contains(x)
}

/// The same listing from the top: `root` first, every other process after
/// its parent.
pub open spec fn top_down_listing(snapshot: Seq<(u32, u32)>, root: u32, out: Seq<u32>) -> bool {
    &&& out.len() >= 1
    &&& out[0] == root
    &&& forall|a: int, b: int| 0 <= a < b < out.len() ==> out[a] != out[b]
    &&& forall|k: int|
        1 <= k < out.len() ==> exists|j: int| 0 <= j < k && child_of(snapshot, #[trigger] out[k], out[j])
    &&& forall|x: u32| in_tree(snapshot, root, x) <==> out.contains(x)
}

pub open spec fn count_true(s: Seq<bool>) -> nat
    decreases s.len(),
{
    if s.len() == 0 {
        0
    } else {
        count_true(s.drop_last()) + if s.last() {
            1nat
        } else {
            0nat
        }
    }
}

proof fn lemma_count_true_bound(s: Seq<bool>)
    ensures
        count_true(s) <= s.len(),
    decreases s.len(),
{
    if s.len() > 0 {
        lemma_count_true_bound(s.drop_last());
    }
}

proof fn lemma_count_true_set(s: Seq<bool>, i: int)
    requires
        0 <= i < s.len(),
        !s[i],
    ensures
        count_true(s.update(i, true)) == count_true(s) + 1,
    decreases s.len(),
{
    let t = s.update(i, true);
    if i == s.len() - 1 {
        assert(t.drop_last() =~= s.drop_last());
    } else {
        assert(t.drop_last() =~= s.drop_last().update(i, true));
        lemma_count_true_set(s.drop_last(), i);
    }
}

fn contains_pid(v: &Vec<u32>, x: u32) -> (r: bool)
    ensures
        r == v@.contains(x),
{
    let mut i: usize = 0;
    while i < v.len()
        invariant
            i <= v@.len(),
            forall|j: int| 0 <= j < i ==> v@[j] != x,
        decreases v@.len() - i,
    {
        if v[i] == x {
            return true;
        }
        i = i + 1;
    }
    false
}

proof fn lemma_listed_in_tree(snapshot: Seq<(u32, u32)>, root: u32, out: Seq<u32>, k: int)
    requires
        out.len() >= 1,
        out[0] == root,
        forall|m: int|
            1 <= m < out.len() ==> exists|j: int| 0 <= j < m && child_of(snapshot, #[trigger] out[m], out[j]),
        0 <= k < out.len(),
    ensures
        in_tree(snapshot, root, out[k]),
    decreases k,
{
    if k == 0 {
        let path = seq![root];
        assert(is_path(snapshot, root, path));
    } else {
        let j = choose|j: int| 0 <= j < k && child_of(snapshot, out[k], out[j]);
        lemma_listed_in_tree(snapshot, root, out, j);
        let p = choose|p: Seq<u32>| #[trigger] is_path(snapshot, root, p) && p.last() == out[j];
        let q = p.push(out[k]);
        assert forall|i: int| 0 <= i < q.len() - 1 implies child_of(snapshot, #[trigger] q[i + 1], q[i]) by {
            if i < p.len() - 1 {
                assert(q[i + 1] == p[i + 1] && q[i] == p[i]);
            } else {
                assert(q[i] == out[j]);
            }
        }
        assert(is_path(snapshot, root, q));
    }
}

proof fn lemma_tree_listed(snapshot: Seq<(u32, u32)>, root: u32, out: Seq<u32>, path: Seq<u32>)
    requires
        out.contains(root),
        forall|c: u32, p: u32| out.contains(p) && child_of(snapshot, c, p) ==> out.contains(c),
        is_path(snapshot, root, path),
    ensures
        out.contains(path.last()),
    decreases path.len(),
{
    if path.len() > 1 {
        let shorter = path.drop_last();
        assert forall|i: int| 0 <= i < shorter.len() - 1 implies child_of(
            snapshot,
            #[trigger] shorter[i + 1],
            shorter[i],
        ) by {
            assert(shorter[i + 1] == path[i + 1] && shorter[i] == path[i]);
        }
        lemma_tree_listed(snapshot, root, out, shorter);
        let i = path.len() - 2;
        assert(child_of(snapshot, path[i + 1], path[i]));
    }
}

/// The tree walked from the root down, parents before their children.
fn top_down(root: u32, snapshot: &[(u32, u32)]) -> (r: Vec<u32>)
    ensures
        top_down_listing(snapshot@, root, r@),
{
    let n = snapshot.len();
    let ghost s = snapshot@;
    let mut used: Vec<bool> = Vec::new();
    let mut u: usize = 0;
    while u < n
        invariant
            u <= n,
            used@.len() == u,
            count_true(used@) == 0,
            forall|j: int| 0 <= j < u ==> !used@[j],
        decreases n - u,
    {
        let ghost before = used@;
        used.push(false);
        assert(used@.drop_last() =~= before);
        u = u + 1;
    }
    let mut out: Vec<u32> = vec![root];
    let mut k: usize = 0;
    while k < out.len()
        invariant
            n == snapshot@.len(),
            s == snapshot@,
            used@.len() == n,
            out@.len() == 1 + count_true(used@),
            k <= out@.len(),
            out@[0] == root,
            forall|a: int, b: int| 0 <= a < b < out@.len() ==> out@[a] != out@[b],
            forall|m: int|
                1 <= m < out@.len() ==> exists|j: int| 0 <= j < m && child_of(s, #[trigger] out@[m], out@[j]),
            forall|i: int| 0 <= i < n && #[trigger] used@[i] ==> out@.contains(s[i].0),
            // Every child of an expanded process is listed.
            forall|c: u32, p: int|
                0 <= p < k && #[trigger] child_of(s, c, out@[p]) ==> out@.contains(c),
        decreases n + 1 - k,
    {
        proof {
            lemma_count_true_bound(used@);
        }
        let p = out[k];
        let mut j: usize = 0;
        while j < n
            invariant
                n == snapshot@.len(),
                s == snapshot@,
                used@.len() == n,
                out@.len() == 1 + count_true(used@),
                k < out@.len(),
                out@[k as int] == p,
                j <= n,
                out@[0] == root,
                forall|a: int, b: int| 0 <= a < b < out@.len() ==> out@[a] != out@[b],
                forall|m: int|
                    1 <= m < out@.len() ==> exists|i: int| 0 <= i < m && child_of(s, #[trigger] out@[m], out@[i]),
                forall|c: u32, q: int|
                    0 <= q < k && #[trigger] child_of(s, c, out@[q]) ==> out@.contains(c),
                forall|i: int| 0 <= i < j && s[i].1 == p ==> out@.contains(#[trigger] s[i].0),
                forall|i: int| 0 <= i < n && #[trigger] used@[i] ==> out@.contains(s[i].0),
            decreases n - j,
        {
            let (c, pp) = snapshot[j];
            if pp == p && !contains_pid(&out, c) {
                let ghost before = out@;
                let ghost ub = used@;
                // An entry adds its child at most once: the child of a used
                // entry is already listed.
                assert(!ub[j as int]);
                proof {
                    lemma_count_true_set(ub, j as int);
                }
                used.set(j, true);
                out.push(c);
                assert(child_of(s, c, p)) by {
                    assert(s[j as int] == (c, p));
                }
                assert forall|m: int| 1 <= m < out@.len() implies exists|i: int|
                    0 <= i < m && child_of(s, #[trigger] out@[m], out@[i]) by {
                    if m < before.len() {
                        let i = choose|i: int| 0 <= i < m && child_of(s, before[m], before[i]);
                        assert(out@[m] == before[m] && out@[i] == before[i]);
                    } else {
                        assert(out@[k as int] == p);
                    }
                }
                assert forall|cc: u32, q: int| 0 <= q < k && #[trigger] child_of(s, cc, out@[q]) implies out@.contains(
                    cc,
                ) by {
                    assert(out@[q] == before[q]);
                    assert(before.contains(cc));
                    let w = choose|w: int| 0 <= w < before.len() && before[w] == cc;
                    assert(out@[w] == cc);
                }
                assert forall|i: int| 0 <= i < n && #[trigger] used@[i] implies out@.contains(s[i].0) by {
                    if i == j {
                        assert(out@[before.len() as int] == c);
                    } else {
                        assert(ub[i]);
                        let w = choose|w: int| 0 <= w < before.len() && before[w] == s[i].0;
                        assert(out@[w] == s[i].0);
                    }
                }
                assert forall|i: int| 0 <= i < j + 1 && s[i].1 == p implies out@.contains(#[trigger] s[i].0) by {
                    if i < j {
                        let w = choose|w: int| 0 <= w < before.len() && before[w] == s[i].0;
                        assert(out@[w] == s[i].0);
                    } else {
                        assert(out@[before.len() as int] == c);
                    }
                }
            }
            j = j + 1;
        }
        assert forall|c: u32, q: int| 0 <= q < k + 1 && #[trigger] child_of(s, c, out@[q]) implies out@.contains(c) by {
            if q == k {
                let i = choose|i: int| 0 <= i < s.len() && #[trigger] s[i] == (c, out@[q]);
                assert(s[i].1 == p);
                assert(out@.contains(s[i].0));
            }
        }
        k = k + 1;
    }
    proof {
        assert forall|x: u32| in_tree(s, root, x) <==> out@.contains(x) by {
            if out@.contains(x) {
                let w = choose|w: int| 0 <= w < out@.len() && out@[w] == x;
                lemma_listed_in_tree(s, root, out@, w);
            }
            if in_tree(s, root, x) {
                let path = choose|path: Seq<u32>| #[trigger] is_path(s, root, path) && path.last() == x;
                assert forall|c: u32, p: u32| out@.contains(p) && child_of(s, c, p) implies out@.contains(c) by {
                    let w = choose|w: int| 0 <= w < out@.len() && out@[w] == p;
                    assert(child_of(s, c, out@[w]));
                }
                assert(out@[0] == root);
                lemma_tree_listed(s, root, out@, path);
            }
        }
    }
    out
}

proof fn lemma_reversed_listing(snapshot: Seq<(u32, u32)>, root: u32, tree: Seq<u32>)
    requires
        top_down_listing(snapshot, root, tree),
    ensures
        tree_listing(snapshot, root, tree.reverse()),
{
    let r = tree.reverse();
    let n = tree.len() as int;
    assert(r[n - 1] == tree[0]);
    assert forall|k: int| 0 <= k < n - 1 implies exists|j: int|
        k < j < n && child_of(snapshot, #[trigger] r[k], r[j]) by {
        let m = n - 1 - k;
        assert(r[k] == tree[m]);
        assert(1 <= m < n);
        let i = choose|i: int| 0 <= i < m && child_of(snapshot, tree[m], tree[i]);
        assert(r[n - 1 - i] == tree[i]);
    }
    assert forall|a: int, b: int| 0 <= a < b < n implies r[a] != r[b] by {
        assert(r[a] == tree[n - 1 - a] && r[b] == tree[n - 1 - b]);
    }
    assert forall|x: u32| in_tree(snapshot, root, x) <==> r.contains(x) by {
        if r.contains(x) {
            let w = choose|w: int| 0 <= w < n && r[w] == x;
            assert(tree[n - 1 - w] == x);
        }
        if tree.contains(x) {
            let w = choose|w: int| 0 <= w < n && tree[w] == x;
            assert(r[n - 1 - w] == x);
        }
    }
}

/// All processes of the tree rooted at `root` (including `root` itself),
/// parents last: the order in which the tree is stopped, leaves first, so
/// that no child is left behind, re-parented, while its parent is being
/// stopped. `snapshot` lists every running process as `(pid, parent pid)`.
pub fn descendants(root: u32, snapshot: &[(u32, u32)]) -> (r: Vec<u32>)
    ensures
        tree_listing(snapshot@, root, r@),
{
    let tree = top_down(root, snapshot);
    let mut r: Vec<u32> = Vec::new();
    let mut i: usize = tree.len();
    while i > 0
        invariant
            i <= tree@.len(),
            r@ == tree@.subrange(i as int, tree@.len() as int).reverse(),
        decreases i,
    {
        i = i - 1;
        r.push(tree[i]);
        assert(r@ =~= tree@.subrange(i as int, tree@.len() as int).reverse());
    }
    assert(tree@.subrange(0, tree@.len() as int) =~= tree@);
    proof {
        lemma_reversed_listing(snapshot@, root, tree@);
    }
    r
}

/// Stopping a tree in the listed order stops every process before a parent
/// of it, and the root last; no process is stopped twice.
pub proof fn law_children_stopped_first(snapshot: Seq<(u32, u32)>, root: u32, tree: Seq<u32>)
    requires
        tree_listing(snapshot, root, tree),
    ensures
        tree.last() == root,
        forall|k: int|
            0 <= k < tree.len() - 1 ==> exists|j: int|
                k < j < tree.len() && child_of(snapshot, #[trigger] tree[k], tree[j]),
        forall|a: int, b: int| 0 <= a < b < tree.len() ==> tree[a] != tree[b],
{
}

/// The `(pid, parent pid)` of a snapshot line `"<pid> <parent pid>"`: its
/// first two whitespace-separated fields, both `u32`.
pub open spec fn snapshot_row(line: Seq<char>) -> Option<(u32, u32)> {
    let w = words(line);
    if w.len() >= 2 {
        match (parse_unsigned(w[0], u32::MAX as nat), parse_unsigned(w[1], u32::MAX as nat)) {
            (Some(a), Some(b)) => Some((a as u32, b as u32)),
            _ => None,
        }
    } else {
        None
    }
}

pub open spec fn snapshot_rows(ls: Seq<Seq<char>>) -> Seq<(u32, u32)>
    decreases ls.len(),
{
    if ls.len() == 0 {
        Seq::empty()
    } else {
        match snapshot_row(ls.last()) {
            Some(r) => snapshot_rows(ls.drop_last()).push(r),
            None => snapshot_rows(ls.drop_last()),
        }
    }
}

/// The processes of a snapshot listing, one `"<pid> <parent pid>"` line
/// each; other lines are skipped.
pub fn parse_process_snapshot(output: &str) -> (r: Vec<(u32, u32)>)
    ensures
        r@ == snapshot_rows(lines(output@)),
{
    let ls = split_lines(&chars_of(output));
    let ghost lv = views(ls@);
    assert(lv == lines(output@));
    let mut r: Vec<(u32, u32)> = Vec::new();
    let mut i: usize = 0;
    while i < ls.len()
        invariant
            i <= ls@.len(),
            lv == views(ls@),
            r@ == snapshot_rows(lv.take(i as int)),
        decreases ls@.len() - i,
    {
        assert(lv.take(i + 1).drop_last() =~= lv.take(i as int));
        assert(lv.take(i + 1).last() == ls@[i as int]@);
        let w = split_words(ls[i].as_slice());
        if w.len() >= 2 {
            assert(views(w@)[0] == w@[0]@ && views(w@)[1] == w@[1]@);
            match (parse_unsigned_max(w[0].as_slice(), 0xffff_ffff), parse_unsigned_max(w[1].as_slice(), 0xffff_ffff)) {
                (Some(a), Some(b)) => {
                    r.push((a as u32, b as u32));
                },
                _ => {},
            }
        }
        i = i + 1;
    }
    assert(lv.take(ls@.len() as int) =~= lv);
    r
}

/// The text of a `u32` numeral: nonempty, digits only, at most `u32::MAX`.
pub open spec fn u32_numeral(t: Seq<char>) -> bool {
    t.len() > 0 && all_digits(t) && digits_value(t) <= u32::MAX
}

/// A snapshot line `<a> <b>` of two numerals is the row `(a, b)`: the first
/// field is the process id and the second the id of its parent.
pub proof fn law_snapshot_row_is_pid_then_parent(a: Seq<char>, b: Seq<char>)
    requires
        u32_numeral(a),
        u32_numeral(b),
    ensures
        snapshot_row(a + seq![' '] + b) == Some((digits_value(a) as u32, digits_value(b) as u32)),
{
    let k = CharSet::Whitespace;
    assert forall|i: int| 0 <= i < a.len() implies !in_set(k, #[trigger] a[i]) by {
        assert(is_ascii_digit(a[i]));
    }
    assert forall|i: int| 0 <= i < b.len() implies !in_set(k, #[trigger] b[i]) by {
        assert(is_ascii_digit(b[i]));
    }
    let e = Seq::<char>::empty();
    lemma_split_append_plain(e, a, k);
    assert(e + a =~= a);
    assert(split_by(e, k) == seq![e]);
    assert(split_by(a, k) =~= seq![a]);
    let a_sp = a + seq![' '];
    assert(a_sp.drop_last() =~= a);
    assert(in_set(k, ' '));
    assert(split_by(a_sp, k) =~= seq![a, e]);
    lemma_split_append_plain(a_sp, b, k);
    assert(e + b =~= b);
    assert(split_by(a + seq![' '] + b, k) =~= seq![a, b]);
    lemma_nonempty_all(seq![a, b]);
    assert(words(a + seq![' '] + b) == seq![a, b]);
    assert(a[0] != '+' && b[0] != '+') by {
        assert(is_ascii_digit(a[0]) && is_ascii_digit(b[0]));
    }
}

/// A snapshot holds exactly the rows of its readable lines: each line that
/// reads as a row gives a row, and every row comes from such a line.
pub proof fn law_snapshot_rows_from_lines(ls: Seq<Seq<char>>)
    ensures
        forall|k: int|
            0 <= k < ls.len() && #[trigger] snapshot_row(ls[k]) is Some ==> snapshot_rows(ls).contains(
                snapshot_row(ls[k])->0,
            ),
        forall|r: (u32, u32)|
            snapshot_rows(ls).contains(r) ==> exists|k: int|
                0 <= k < ls.len() && #[trigger] snapshot_row(ls[k]) == Some(r),
    decreases ls.len(),
{
    if ls.len() > 0 {
        let init = ls.drop_last();
        law_snapshot_rows_from_lines(init);
        let prev = snapshot_rows(init);
        assert forall|k: int|
            0 <= k < ls.len() && #[trigger] snapshot_row(ls[k]) is Some implies snapshot_rows(ls).contains(
                snapshot_row(ls[k])->0,
            ) by {
            if k < ls.len() - 1 {
                assert(ls[k] == init[k]);
                let j = choose|j: int| 0 <= j < prev.len() && prev[j] == snapshot_row(init[k])->0;
                assert(snapshot_rows(ls)[j] == prev[j]);
            } else {
                assert(snapshot_rows(ls).last() == snapshot_row(ls[k])->0);
            }
        }
        assert forall|r: (u32, u32)| snapshot_rows(ls).contains(r) implies exists|k: int|
            0 <= k < ls.len() && #[trigger] snapshot_row(ls[k]) == Some(r) by {
            let j = choose|j: int| 0 <= j < snapshot_rows(ls).len() && snapshot_rows(ls)[j] == r;
            if j < prev.len() {
                assert(prev[j] == r);
                assert(prev.contains(r));
                let k = choose|k: int| 0 <= k < init.len() && #[trigger] snapshot_row(init[k]) == Some(r);
                assert(ls[k] == init[k]);
            } else {
                assert(snapshot_row(ls[ls.len() - 1]) == Some(r));
            }
        }
    }
}

} // verus!
