//! Partitions of the elements `0..n` into classes, as the sequence that
//! maps each element to the representative of its class, and what merging
//! classes does to them.

use vstd::prelude::*;

verus! {

/// The number of elements of `s` that have `r` as their representative.
pub open spec fn class_size(s: Seq<int>, r: int) -> nat
    decreases s.len(),
{
    if s.len() == 0 {
        0
    } else {
        class_size(s.drop_last(), r) + if s.last() == r {
            1nat
        } else {
            0nat
        }
    }
}

/// The partition in which every one of `n` elements is alone in its class.
pub open spec fn singletons(n: nat) -> Seq<int> {
    Seq::new(n, |i: int| i)
}

/// The partition `s` with every element of the class of `gone` moved to the
/// class of `keep`.
pub open spec fn relabel(s: Seq<int>, gone: int, keep: int) -> Seq<int> {
    Seq::new(
        s.len(),
        |i: int|
            if s[i] == gone {
                keep
            } else {
                s[i]
            },
    )
}

/// The representative that stays one when the classes of `x` and `y` are
/// united: that of the larger class, and that of `x` where the two classes
/// are of one size.
pub open spec fn kept(s: Seq<int>, x: int, y: int) -> int {
    if class_size(s, s[x]) >= class_size(s, s[y]) {
        s[x]
    } else {
        s[y]
    }
}

/// The representative that goes below the other when the classes of `x` and
/// `y` are united: that of the smaller class, and that of `y` where the two
/// classes are of one size.
pub open spec fn dropped(s: Seq<int>, x: int, y: int) -> int {
    if class_size(s, s[x]) >= class_size(s, s[y]) {
        s[y]
    } else {
        s[x]
    }
}

/// The partition `s` after the classes of `x` and `y` are united.
pub open spec fn merged(s: Seq<int>, x: int, y: int) -> Seq<int> {
    if s[x] == s[y] {
        s
    } else {
        relabel(s, dropped(s, x, y), kept(s, x, y))
    }
}

/// Two different classes together have no more elements than the partition.
pub proof fn lemma_class_size_disjoint(s: Seq<int>, a: int, b: int)
    requires
        a != b,
    ensures
        class_size(s, a) + class_size(s, b) <= s.len(),
    decreases s.len(),
{
    if s.len() > 0 {
        lemma_class_size_disjoint(s.drop_last(), a, b);
    }
}

/// Moving one class into another adds their sizes, empties the first and
/// leaves every other class as it was.
pub proof fn lemma_class_size_relabel(s: Seq<int>, gone: int, keep: int, r: int)
    requires
        gone != keep,
    ensures
        class_size(relabel(s, gone, keep), r) == if r == keep {
            class_size(s, keep) + class_size(s, gone)
        } else if r == gone {
            0
        } else {
            class_size(s, r)
        },
    decreases s.len(),
{
    if s.len() > 0 {
        lemma_class_size_relabel(s.drop_last(), gone, keep, r);
        assert(relabel(s, gone, keep).drop_last() =~= relabel(s.drop_last(), gone, keep));
    }
}

/// Among `n` singletons, the first `k` hold exactly one element of each class
/// below `k` and none of the others.
proof fn lemma_class_size_prefix(n: nat, k: nat, r: int)
    requires
        k <= n,
    ensures
        class_size(singletons(n).take(k as int), r) == if 0 <= r < k {
            1nat
        } else {
            0nat
        },
    decreases k,
{
    let s = singletons(n).take(k as int);
    if k > 0 {
        lemma_class_size_prefix(n, (k - 1) as nat, r);
        assert(s.drop_last() =~= singletons(n).take(k - 1));
    }
}

/// Every class of the partition into singletons has one element.
pub proof fn lemma_class_size_singletons(n: nat, r: int)
    requires
        0 <= r < n,
    ensures
        class_size(singletons(n), r) == 1,
{
    lemma_class_size_prefix(n, n, r);
    assert(singletons(n).take(n as int) =~= singletons(n));
}

/// Two elements are in one class after a merge exactly if they were before,
/// or if each was in the class of one of the two merged elements.
pub proof fn lemma_merged_same(s: Seq<int>, a: int, b: int, i: int, j: int)
    requires
        0 <= a < s.len(),
        0 <= b < s.len(),
        0 <= i < s.len(),
        0 <= j < s.len(),
    ensures
        merged(s, a, b).len() == s.len(),
        merged(s, a, b)[i] == merged(s, a, b)[j] <==> s[i] == s[j] || ((s[i] == s[a] || s[i]
            == s[b]) && (s[j] == s[a] || s[j] == s[b])),
{
}

/// The partition of `n` elements that the merges `ms` leave, made in order
/// from singletons.
pub open spec fn after_merges(n: nat, ms: Seq<(int, int)>) -> Seq<int>
    decreases ms.len(),
{
    if ms.len() == 0 {
        singletons(n)
    } else {
        merged(after_merges(n, ms.drop_last()), ms.last().0, ms.last().1)
    }
}

/// Every merge of `ms` names two of the elements `0..n`.
pub open spec fn merges_within(n: nat, ms: Seq<(int, int)>) -> bool {
    forall|k: int| 0 <= k < ms.len() ==> 0 <= (#[trigger] ms[k]).0 < n && 0 <= ms[k].1 < n
}

/// Some merge of `ms` names `a` and `b`, in either order.
pub open spec fn linked(ms: Seq<(int, int)>, a: int, b: int) -> bool {
    exists|k: int| 0 <= k < ms.len() && (#[trigger] ms[k] == (a, b) || ms[k] == (b, a))
}

/// Each element of `path` is linked to the next by a merge of `ms`.
pub open spec fn is_chain(ms: Seq<(int, int)>, path: Seq<int>) -> bool {
    forall|j: int| 0 <= j < path.len() - 1 ==> linked(ms, #[trigger] path[j], path[j + 1])
}

/// `x` and `y` are connected by the merges `ms`, directly or through other
/// elements.
pub open spec fn connected(ms: Seq<(int, int)>, x: int, y: int) -> bool {
    exists|path: Seq<int>|
        path.len() >= 1 && path.first() == x && path.last() == y && #[trigger] is_chain(ms, path)
}

proof fn lemma_after_merges_len(n: nat, ms: Seq<(int, int)>)
    requires
        merges_within(n, ms),
    ensures
        after_merges(n, ms).len() == n,
    decreases ms.len(),
{
    if ms.len() > 0 {
        lemma_after_merges_len(n, ms.drop_last());
    }
}

/// The two elements of a merge are in one class from then on.
proof fn lemma_linked_same(n: nat, ms: Seq<(int, int)>, a: int, b: int)
    requires
        merges_within(n, ms),
        linked(ms, a, b),
    ensures
        0 <= a < n,
        0 <= b < n,
        after_merges(n, ms)[a] == after_merges(n, ms)[b],
    decreases ms.len(),
{
    let k = choose|k: int| 0 <= k < ms.len() && (#[trigger] ms[k] == (a, b) || ms[k] == (b, a));
    let before = ms.drop_last();
    let s = after_merges(n, before);
    lemma_after_merges_len(n, before);
    if k < ms.len() - 1 {
        assert(before[k] == ms[k]);
        lemma_linked_same(n, before, a, b);
    }
    lemma_merged_same(s, ms.last().0, ms.last().1, a, b);
}

/// The two ends of a chain are in one class.
proof fn lemma_chain_same(n: nat, ms: Seq<(int, int)>, path: Seq<int>)
    requires
        merges_within(n, ms),
        path.len() >= 1,
        0 <= path.first() < n,
        is_chain(ms, path),
    ensures
        0 <= path.last() < n,
        after_merges(n, ms)[path.first()] == after_merges(n, ms)[path.last()],
    decreases path.len(),
{
    if path.len() > 1 {
        let shorter = path.drop_last();
        assert forall|j: int| 0 <= j < shorter.len() - 1 implies linked(
            ms,
            #[trigger] shorter[j],
            shorter[j + 1],
        ) by {
            assert(linked(ms, path[j], path[j + 1]));
        }
        lemma_chain_same(n, ms, shorter);
        assert(linked(ms, path[path.len() - 2], path[path.len() - 2 + 1]));
        lemma_linked_same(n, ms, shorter.last(), path.last());
    }
}

/// What was connected stays connected when one more merge is made.
proof fn lemma_connected_grows(ms: Seq<(int, int)>, x: int, y: int)
    requires
        ms.len() > 0,
        connected(ms.drop_last(), x, y),
    ensures
        connected(ms, x, y),
{
    let before = ms.drop_last();
    let path = choose|path: Seq<int>|
        path.len() >= 1 && path.first() == x && path.last() == y && #[trigger] is_chain(
            before,
            path,
        );
    assert forall|j: int| 0 <= j < path.len() - 1 implies linked(
        ms,
        #[trigger] path[j],
        path[j + 1],
    ) by {
        let k = choose|k: int|
            0 <= k < before.len() && (#[trigger] before[k] == (path[j], path[j + 1]) || before[k]
                == (path[j + 1], path[j]));
        assert(ms[k] == before[k]);
    }
    assert(is_chain(ms, path));
}

/// A chain to `a`, a merge of `a` and `b` and a chain from `b` make one chain.
proof fn lemma_connected_through(ms: Seq<(int, int)>, x: int, a: int, b: int, y: int)
    requires
        connected(ms, x, a),
        linked(ms, a, b),
        connected(ms, b, y),
    ensures
        connected(ms, x, y),
{
    let left = choose|path: Seq<int>|
        path.len() >= 1 && path.first() == x && path.last() == a && #[trigger] is_chain(ms, path);
    let right = choose|path: Seq<int>|
        path.len() >= 1 && path.first() == b && path.last() == y && #[trigger] is_chain(ms, path);
    let path = left + right;
    assert forall|j: int| 0 <= j < path.len() - 1 implies linked(
        ms,
        #[trigger] path[j],
        path[j + 1],
    ) by {
        if j < left.len() - 1 {
            assert(linked(ms, left[j], left[j + 1]));
        } else if j == left.len() - 1 {
        } else {
            assert(linked(ms, right[j - left.len()], right[j - left.len() + 1]));
        }
    }
    assert(is_chain(ms, path));
}

/// An element is connected to itself.
proof fn lemma_connected_self(ms: Seq<(int, int)>, x: int)
    ensures
        connected(ms, x, x),
{
    assert(is_chain(ms, seq![x]));
}

/// Two elements in one class are connected.
proof fn lemma_same_connected(n: nat, ms: Seq<(int, int)>, x: int, y: int)
    requires
        merges_within(n, ms),
        0 <= x < n,
        0 <= y < n,
        after_merges(n, ms)[x] == after_merges(n, ms)[y],
    ensures
        connected(ms, x, y),
    decreases ms.len(),
{
    if ms.len() == 0 {
        lemma_connected_self(ms, x);
    } else {
        let before = ms.drop_last();
        let s = after_merges(n, before);
        let (a, b) = ms.last();
        lemma_after_merges_len(n, before);
        lemma_merged_same(s, a, b, x, y);
        assert(linked(ms, a, b)) by {
            assert(ms[ms.len() - 1] == (a, b));
        }
        assert(linked(ms, b, a)) by {
            assert(ms[ms.len() - 1] == (a, b));
        }
        if s[x] == s[y] {
            lemma_same_connected(n, before, x, y);
            lemma_connected_grows(ms, x, y);
        } else if s[x] == s[a] {
            lemma_same_connected(n, before, x, a);
            lemma_same_connected(n, before, b, y);
            lemma_connected_grows(ms, x, a);
            lemma_connected_grows(ms, b, y);
            lemma_connected_through(ms, x, a, b, y);
        } else {
            lemma_same_connected(n, before, x, b);
            lemma_same_connected(n, before, a, y);
            lemma_connected_grows(ms, x, b);
            lemma_connected_grows(ms, a, y);
            lemma_connected_through(ms, x, b, a, y);
        }
    }
}

/// After any sequence of merges, two elements are in one class exactly if a
/// chain of merged pairs leads from one to the other.
pub proof fn lemma_same_iff_connected(n: nat, ms: Seq<(int, int)>, x: int, y: int)
    requires
        merges_within(n, ms),
        0 <= x < n,
        0 <= y < n,
    ensures
        after_merges(n, ms)[x] == after_merges(n, ms)[y] <==> connected(ms, x, y),
{
    if after_merges(n, ms)[x] == after_merges(n, ms)[y] {
        lemma_same_connected(n, ms, x, y);
    }
    if connected(ms, x, y) {
        let path = choose|path: Seq<int>|
            path.len() >= 1 && path.first() == x && path.last() == y && #[trigger] is_chain(
                ms,
                path,
            );
        lemma_chain_same(n, ms, path);
    }
}

} // verus!
