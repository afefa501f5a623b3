use vstd::prelude::*;
use vstd::multiset::{Multiset, lemma_multiset_empty_len};
use vstd::seq_lib::{to_multiset_build, to_multiset_contains};
use crate::node::{Node, NodeView};

verus! {

/// The open set of the search: the nodes met and not yet settled, handed out
/// in ascending order of `g + h`.
///
/// The nodes are kept in buckets, one for each priority, so the order among
/// nodes of equal priority is that of a stack.
pub struct Frontier {
    buckets: Vec<Vec<Node>>,
}

/// The views of the nodes in one bucket.
pub open spec fn bucket_views(bucket: Seq<Node>) -> Seq<NodeView> {
    Seq::new(bucket.len(), |i: int| bucket[i]@)
}

/// The nodes of the first `k` buckets.
pub open spec fn gather(buckets: Seq<Vec<Node>>, k: int) -> Multiset<NodeView>
    decreases k,
{
    if k <= 0 {
        Multiset::empty()
    } else {
        gather(buckets, k - 1).add(bucket_views(buckets[k - 1]@).to_multiset())
    }
}

/// A node counted by `gather` lies in one of the buckets, and the other way
/// round.
proof fn lemma_gather_contains(buckets: Seq<Vec<Node>>, k: int, v: NodeView)
    requires
        0 <= k <= buckets.len(),
    ensures
        gather(buckets, k).contains(v) <==> exists|i: int, j: int|
            0 <= i < k && 0 <= j < buckets[i].len() && #[trigger] buckets[i][j]@ == v,
    decreases k,
{
    if k > 0 {
        lemma_gather_contains(buckets, k - 1, v);
        let last = bucket_views(buckets[k - 1]@);
        to_multiset_contains(last, v);
        if last.contains(v) {
            let j = choose|j: int| 0 <= j < last.len() && last[j] == v;
            assert(buckets[k - 1][j]@ == v);
        }
        if exists|i: int, j: int|
            0 <= i < k && 0 <= j < buckets[i].len() && #[trigger] buckets[i][j]@ == v {
            let (i, j) = choose|i: int, j: int|
                0 <= i < k && 0 <= j < buckets[i].len() && #[trigger] buckets[i][j]@ == v;
            if i == k - 1 {
                assert(last[j] == v);
            } else {
                assert(buckets[i][j]@ == v);
            }
        }
    }
}

/// Buckets that agree below `k` gather the same nodes there.
proof fn lemma_gather_agree(a: Seq<Vec<Node>>, b: Seq<Vec<Node>>, k: int)
    requires
        0 <= k <= a.len(),
        k <= b.len(),
        forall|i: int| 0 <= i < k ==> a[i]@ == b[i]@,
    ensures
        gather(a, k) == gather(b, k),
    decreases k,
{
    if k > 0 {
        lemma_gather_agree(a, b, k - 1);
    }
}

/// Empty buckets add nothing.
proof fn lemma_gather_empty(buckets: Seq<Vec<Node>>, from: int, k: int)
    requires
        0 <= from <= k <= buckets.len(),
        forall|i: int| from <= i < k ==> buckets[i].len() == 0,
    ensures
        gather(buckets, k) == gather(buckets, from),
    decreases k,
{
    if k > from {
        lemma_gather_empty(buckets, from, k - 1);
        let last = bucket_views(buckets[k - 1]@);
        last.to_multiset_ensures();
        lemma_multiset_empty_len(last.to_multiset());
        assert(gather(buckets, k) =~= gather(buckets, k - 1));
    }
}

/// A node pushed onto one bucket is one node more in all.
proof fn lemma_gather_push(a: Seq<Vec<Node>>, b: Seq<Vec<Node>>, at: int, node: Node, k: int)
    requires
        0 <= k <= a.len(),
        a.len() == b.len(),
        0 <= at < a.len(),
        forall|i: int| 0 <= i < a.len() && i != at ==> a[i]@ == b[i]@,
        b[at]@ == a[at]@.push(node),
    ensures
        gather(b, k) == if at < k {
            gather(a, k).insert(node@)
        } else {
            gather(a, k)
        },
    decreases k,
{
    if k > 0 {
        lemma_gather_push(a, b, at, node, k - 1);
        if at == k - 1 {
            assert(bucket_views(b[at]@) =~= bucket_views(a[at]@).push(node@));
            to_multiset_build(bucket_views(a[at]@), node@);
        }
        assert(gather(b, k) =~= if at < k {
            gather(a, k).insert(node@)
        } else {
            gather(a, k)
        });
    }
}

impl View for Frontier {
    type V = Multiset<NodeView>;

    closed spec fn view(&self) -> Multiset<NodeView> {
        gather(self.buckets@, self.buckets.len() as int)
    }
}

impl Frontier {
    /// Every node is well formed and lies in the bucket of its priority.
    pub closed spec fn well_formed(&self) -> bool {
        forall|i: int, j: int|
            0 <= i < self.buckets.len() && 0 <= j < self.buckets[i].len() ==> {
                &&& (#[trigger] self.buckets[i][j]).well_formed()
                &&& self.buckets[i][j]@.f() == i
            }
    }

    /// The frontier that holds no node.
    pub fn new() -> (r: Self)
        ensures
            r.well_formed(),
            r@ == Multiset::<NodeView>::empty(),
    {
        Frontier { buckets: Vec::new() }
    }

    /// Adds `node` to the frontier.
    pub fn push(&mut self, node: Node)
        requires
            old(self).well_formed(),
            node.well_formed(),
        ensures
            final(self).well_formed(),
            final(self)@ == old(self)@.insert(node@),
    {
        let f: usize = node.g as usize + node.h as usize;
        while self.buckets.len() <= f
            invariant
                self.well_formed(),
                self@ == old(self)@,
            decreases f + 1 - self.buckets.len(),
        {
            let ghost before = self.buckets@;
            self.buckets.push(Vec::new());
            proof {
                let k = before.len() as int;
                lemma_gather_agree(before, self.buckets@, k);
                lemma_gather_empty(self.buckets@, k, k + 1);
            }
        }
        let ghost before = self.buckets@;
        self.buckets[f].push(node);
        proof {
            lemma_gather_push(before, self.buckets@, f as int, node, before.len() as int);
            assert forall|i: int, j: int|
                0 <= i < self.buckets.len() && 0 <= j < self.buckets[i].len() implies {
                &&& (#[trigger] self.buckets[i][j]).well_formed()
                &&& self.buckets[i][j]@.f() == i
            } by {
                if i == f && j == before[i].len() {
                } else {
                    assert(self.buckets[i][j] == before[i][j]);
                }
            }
        }
    }

    /// Takes out a node of least priority; `None` where the frontier is empty.
    pub fn pop(&mut self) -> (r: Option<Node>)
        requires
            old(self).well_formed(),
        ensures
            final(self).well_formed(),
            match r {
                Some(node) => {
                    &&& node.well_formed()
                    &&& old(self)@.contains(node@)
                    &&& final(self)@ == old(self)@.remove(node@)
                    &&& forall|v: NodeView| old(self)@.contains(v) ==> node@.f() <= v.f()
                },
                None => old(self)@ == Multiset::<NodeView>::empty() && final(self)@ == old(self)@,
            },
    {
        let mut i: usize = 0;
        while i < self.buckets.len()
            invariant
                i <= self.buckets.len(),
                *self == *old(self),
                self.well_formed(),
                forall|k: int| 0 <= k < i ==> self.buckets[k].len() == 0,
            decreases self.buckets.len() - i,
        {
            if self.buckets[i].len() > 0 {
                let ghost before = self.buckets@;
                let node = self.buckets[i].pop().unwrap();
                proof {
                    let n = before.len() as int;
                    assert(before[i as int]@ == self.buckets@[i as int]@.push(node));
                    lemma_gather_push(self.buckets@, before, i as int, node, n);
                    assert(self@.insert(node@).remove(node@) =~= self@);
                    assert(before[i as int][before[i as int].len() - 1] == node);
                    assert forall|v: NodeView| old(self)@.contains(v) implies node@.f()
                        <= v.f() by {
                        lemma_gather_contains(before, n, v);
                    }
                    assert forall|a: int, b: int|
                        0 <= a < self.buckets.len() && 0 <= b < self.buckets[a].len() implies {
                        &&& (#[trigger] self.buckets[a][b]).well_formed()
                        &&& self.buckets[a][b]@.f() == a
                    } by {
                        assert(self.buckets[a][b] == before[a][b]);
                    }
                }
                return Some(node);
            }
            i += 1;
        }
        proof {
            lemma_gather_empty(self.buckets@, 0, self.buckets.len() as int);
        }
        None
    }
}

} // verus!
