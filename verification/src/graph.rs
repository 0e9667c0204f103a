//! Reachability in a directed graph of dense nodes.

use crate::dense::DenseSet;
use vstd::prelude::*;

verus! {

/// `path` follows edges from its first node to its last.
pub open spec fn walk<T>(edge: spec_fn(T, T) -> bool, path: Seq<T>) -> bool {
    &&& path.len() > 0
    &&& forall|i: int| 0 <= i < path.len() - 1 ==> edge(#[trigger] path[i], path[i + 1])
}

/// `path` leads from one of `starts` to `node`.
pub open spec fn leads<T>(
    edge: spec_fn(T, T) -> bool,
    starts: Set<T>,
    path: Seq<T>,
    node: T,
) -> bool {
    &&& walk(edge, path)
    &&& starts.contains(path[0])
    &&& path.last() == node
}

/// Some path, possibly of a single node, leads from one of `starts` to `node`.
pub open spec fn reaches<T>(
    edge: spec_fn(T, T) -> bool,
    starts: Set<T>,
    node: T,
) -> bool {
    exists|path: Seq<T>| leads(edge, starts, path, node)
}

/// Every start is reached.
pub proof fn lemma_reaches_start<T>(
    edge: spec_fn(T, T) -> bool,
    starts: Set<T>,
    node: T,
)
    requires
        starts.contains(node),
    ensures
        reaches(edge, starts, node),
{
    assert(leads(edge, starts, seq![node], node));
}

/// What an edge leads to from a reached node is reached.
pub proof fn lemma_reaches_step<T>(
    edge: spec_fn(T, T) -> bool,
    starts: Set<T>,
    from: T,
    to: T,
)
    requires
        reaches(edge, starts, from),
        edge(from, to),
    ensures
        reaches(edge, starts, to),
{
    let path = choose|path: Seq<T>| leads(edge, starts, path, from);
    let longer = path.push(to);
    assert forall|i: int| 0 <= i < longer.len() - 1 implies edge(
        #[trigger] longer[i],
        longer[i + 1],
    ) by {
        if i < path.len() - 1 {
            assert(longer[i] == path[i] && longer[i + 1] == path[i + 1]);
        }
    }
    assert(leads(edge, starts, longer, to));
}

/// A set that holds the starts and is closed under edges holds every reached
/// node.
pub proof fn lemma_reaches_closed<T>(
    edge: spec_fn(T, T) -> bool,
    starts: Set<T>,
    nodes: Set<T>,
    node: T,
)
    requires
        starts.subset_of(nodes),
        forall|a: T, b: T| nodes.contains(a) && #[trigger] edge(a, b) ==> nodes.contains(b),
        reaches(edge, starts, node),
    ensures
        nodes.contains(node),
{
    let path = choose|path: Seq<T>| leads(edge, starts, path, node);
    lemma_walk_closed(edge, nodes, path, path.len() - 1);
}

proof fn lemma_walk_closed<T>(
    edge: spec_fn(T, T) -> bool,
    nodes: Set<T>,
    path: Seq<T>,
    i: int,
)
    requires
        walk(edge, path),
        nodes.contains(path[0]),
        forall|a: T, b: T| nodes.contains(a) && #[trigger] edge(a, b) ==> nodes.contains(b),
        0 <= i < path.len(),
    ensures
        nodes.contains(path[i]),
    decreases i,
{
    if i > 0 {
        lemma_walk_closed(edge, nodes, path, i - 1);
        assert(edge(path[i - 1], path[i - 1 + 1]));
    }
}

/// Pushing an element adds exactly that one.
pub proof fn lemma_push_contains<T>(list: Seq<T>, pushed: T, other: T)
    ensures
        list.push(pushed).contains(other) <==> list.contains(other) || other == pushed,
{
    if list.contains(other) {
        let k = choose|k: int| 0 <= k < list.len() && list[k] == other;
        assert(list.push(pushed)[k] == other);
    }
    assert(list.push(pushed)[list.len() as int] == pushed);
    if list.push(pushed).contains(other) && other != pushed {
        let k = choose|k: int|
            0 <= k < list.push(pushed).len() && list.push(pushed)[k] == other;
        assert(list[k] == other);
    }
}

/// The number of indices below `n` that `set` lacks.
pub open spec fn missing(set: Set<usize>, n: nat) -> nat
    decreases n,
{
    if n == 0 {
        0
    } else {
        missing(set, (n - 1) as nat) + if set.contains((n - 1) as usize) {
            0nat
        } else {
            1nat
        }
    }
}

/// A larger set lacks no more.
pub proof fn lemma_missing_monotone(small: Set<usize>, large: Set<usize>, n: nat)
    requires
        small.subset_of(large),
    ensures
        missing(large, n) <= missing(small, n),
    decreases n,
{
    if n > 0 {
        lemma_missing_monotone(small, large, (n - 1) as nat);
    }
}

/// A larger set that gained an index below `n` lacks fewer.
pub proof fn lemma_missing_grows(small: Set<usize>, large: Set<usize>, n: nat, gained: usize)
    requires
        small.subset_of(large),
        gained < n,
        n <= usize::MAX,
        large.contains(gained),
        !small.contains(gained),
    ensures
        missing(large, n) < missing(small, n),
    decreases n,
{
    if gained == n - 1 {
        lemma_missing_monotone(small, large, (n - 1) as nat);
    } else {
        lemma_missing_grows(small, large, (n - 1) as nat, gained);
    }
}

/// The edges of an adjacency list.
pub open spec fn list_edge(lists: Seq<Vec<usize>>) -> spec_fn(usize, usize) -> bool {
    |a: usize, b: usize| a < lists.len() && lists[a as int]@.contains(b)
}

pub open spec fn lists_wf(lists: Seq<Vec<usize>>) -> bool {
    forall|a: int, i: int|
        0 <= a < lists.len() && 0 <= i < lists[a]@.len() ==> #[trigger] lists[a]@[i] < lists.len()
}

/// The nodes that some path leads to from one of `starts`.
#[verifier::loop_isolation(false)]
pub fn reach(lists: &Vec<Vec<usize>>, starts: &DenseSet) -> (seen: DenseSet)
    requires
        lists_wf(lists@),
        forall|s: usize| #[trigger] starts@.contains(s) ==> s < lists@.len(),
    ensures
        forall|n: usize| #[trigger]
            seen@.contains(n) == reaches(list_edge(lists@), starts@, n),
{
    let ghost edge = list_edge(lists@);
    let mut stack: Vec<usize> = Vec::new();
    for s in 0..lists.len()
        invariant
            forall|k: int| 0 <= k < stack@.len() ==> starts@.contains(#[trigger] stack@[k]),
            forall|t: usize| t < s && starts@.contains(t) ==> #[trigger] stack@.contains(t),
    {
        if starts.contains(s) {
            let ghost before = stack@;
            stack.push(s);
            assert forall|t: usize| t < s + 1 && starts@.contains(t) implies #[trigger] stack@.contains(
                t,
            ) by {
                if t == s {
                    assert(stack@[before.len() as int] == s);
                } else {
                    assert(before.contains(t));
                    let k = choose|k: int| 0 <= k < before.len() && before[k] == t;
                    assert(stack@[k] == t);
                }
            }
        }
    }
    let mut seen = DenseSet::new();
    proof {
        assert forall|k: int| 0 <= k < stack@.len() implies reaches(
            edge,
            starts@,
            #[trigger] stack@[k],
        ) by {
            lemma_reaches_start(edge, starts@, stack@[k]);
        }
    }
    while stack.len() > 0
        invariant
            forall|k: int|
                0 <= k < stack@.len() ==> reaches(edge, starts@, #[trigger] stack@[k]) && stack@[k]
                    < lists@.len(),
            forall|n: usize| #[trigger] seen@.contains(n) ==> reaches(edge, starts@, n),
            forall|n: usize| starts@.contains(n) ==> seen@.contains(n) || #[trigger] stack@.contains(n),
            forall|a: usize, b: usize|
                seen@.contains(a) && #[trigger] edge(a, b) ==> seen@.contains(b) || stack@.contains(b),
        decreases missing(seen@, lists@.len()), stack@.len(),
    {
        let ghost stack0 = stack@;
        let ghost seen0 = seen@;
        let node: usize = stack.pop().unwrap();
        assert(stack0 =~= stack@.push(node));
        assert forall|n: usize| stack0.contains(n) implies n == node || #[trigger] stack@.contains(
            n,
        ) by {
            let k = choose|k: int| 0 <= k < stack0.len() && stack0[k] == n;
            if k < stack@.len() {
                assert(stack@[k] == n);
            }
        }
        if seen.insert(node) {
            proof {
                lemma_missing_grows(seen0, seen@, lists@.len(), node);
            }
            let ghost stack1 = stack@;
            for i in 0..lists[node].len()
                invariant
                    forall|k: int|
                        0 <= k < stack@.len() ==> reaches(edge, starts@, #[trigger] stack@[k])
                            && stack@[k] < lists@.len(),
                    forall|n: usize| stack1.contains(n) ==> #[trigger] stack@.contains(n),
                    forall|k: int|
                        0 <= k < i ==> stack@.contains(#[trigger] lists@[node as int]@[k]),
            {
                let ghost before = stack@;
                let succ: usize = lists[node][i];
                stack.push(succ);
                proof {
                    assert(lists@[node as int]@.contains(succ));
                    assert(edge(node, succ));
                    lemma_reaches_step(edge, starts@, node, succ);
                    assert(stack@[before.len() as int] == succ);
                    assert forall|n: usize| before.contains(n) implies #[trigger] stack@.contains(
                        n,
                    ) by {
                        let k = choose|k: int| 0 <= k < before.len() && before[k] == n;
                        assert(stack@[k] == n);
                    }
                }
            }
            assert forall|a: usize, b: usize|
                seen@.contains(a) && #[trigger] edge(a, b) implies seen@.contains(b)
                || stack@.contains(b) by {
                if a == node {
                    let k = choose|k: int|
                        0 <= k < lists@[node as int]@.len() && lists@[node as int]@[k] == b;
                    assert(stack@.contains(lists@[node as int]@[k]));
                } else if !seen0.contains(b) {
                    assert(stack0.contains(b));
                }
            }
        } else {
            assert(seen@ =~= seen0);
        }
    }
    assert forall|n: usize| #[trigger] seen@.contains(n) == reaches(edge, starts@, n) by {
        if reaches(edge, starts@, n) {
            assert forall|s: usize| starts@.contains(s) implies seen@.contains(s) by {
                assert(!stack@.contains(s));
            }
            lemma_reaches_closed(edge, starts@, seen@, n);
        }
    }
    seen
}

} // verus!
