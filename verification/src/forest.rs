//! The shape of a scene graph, as a mathematical forest.
//!
//! A [`Forest`] records, for every node index, the optional parent, the ordered
//! list of children and the depth below the node's root. Everything here is
//! specification and proof: the executable graph exposes its shape as a
//! `Forest`, and the traversal and attachment contracts are phrased over it.

use vstd::prelude::*;
use vstd::seq_lib::*;

verus! {

/// Parent links, ordered child lists and depths of a set of nodes `0..len`.
pub struct Forest {
    /// The parent of each node, `None` for a root.
    pub parent: Seq<Option<usize>>,
    /// The children of each node, in insertion order.
    pub children: Seq<Seq<usize>>,
    /// The number of edges between each node and the root above it.
    pub depth: Seq<nat>,
    /// A strict upper bound on every depth.
    pub limit: nat,
}

impl Forest {
    pub open spec fn len(self) -> nat {
        self.parent.len()
    }

    /// `n` is the index of a node.
    pub open spec fn has(self, n: usize) -> bool {
        n < self.parent.len()
    }

    /// Parent links and child lists describe the same edges, every child
    /// occurs once, and depths grow by one along each edge. This rules out
    /// cycles and shared children.
    pub open spec fn wf(self) -> bool {
        &&& self.parent.len() <= usize::MAX
        &&& self.children.len() == self.parent.len()
        &&& self.depth.len() == self.parent.len()
        &&& forall|n: int| 0 <= n < self.parent.len() ==> #[trigger] self.depth[n] < self.limit
        &&& forall|n: int|
            0 <= n < self.parent.len() ==> match #[trigger] self.parent[n] {
                Some(p) => {
                    &&& p < self.parent.len()
                    &&& self.depth[n] == self.depth[p as int] + 1
                    &&& self.children[p as int].contains(n as usize)
                },
                None => self.depth[n] == 0,
            }
        &&& forall|n: int, i: int|
            0 <= n < self.parent.len() && 0 <= i < self.children[n].len() ==> {
                &&& (#[trigger] self.children[n][i]) < self.parent.len()
                &&& self.parent[self.children[n][i] as int] == Some(n as usize)
            }
        &&& forall|n: int| 0 <= n < self.parent.len() ==> (#[trigger] self.children[n]).no_duplicates()
    }

    /// `n` lies in the subtree rooted at `a`: `a` is `n` itself or one of its
    /// ancestors.
    pub open spec fn within(self, a: usize, n: usize) -> bool
        decreases self.depth[n as int],
        when self.wf() && self.has(n)
    {
        n == a || match self.parent[n as int] {
            Some(p) => self.within(a, p),
            None => false,
        }
    }

    /// The forest after one more root has been appended.
    pub open spec fn with_root(self) -> Forest {
        Forest {
            parent: self.parent.push(None),
            children: self.children.push(Seq::empty()),
            depth: self.depth.push(0),
            limit: self.limit + 1,
        }
    }

    /// `child` may be hung below `parent`: both exist, `child` is a root, and
    /// `parent` does not lie in the subtree of `child`.
    pub open spec fn attachable(self, parent: usize, child: usize) -> bool {
        &&& self.has(parent)
        &&& self.has(child)
        &&& self.parent[child as int] is None
        &&& !self.within(child, parent)
    }

    /// The forest after `child` has been appended to the children of `parent`.
    /// Every node of the subtree of `child` sinks by the depth of `parent`
    /// plus one.
    pub open spec fn attach(self, parent: usize, child: usize) -> Forest {
        let drop = self.depth[parent as int] + 1;
        Forest {
            parent: self.parent.update(child as int, Some(parent)),
            children: self.children.update(
                parent as int,
                self.children[parent as int].push(child),
            ),
            depth: Seq::new(
                self.depth.len(),
                |n: int|
                    if self.within(child, n as usize) {
                        self.depth[n] + drop
                    } else {
                        self.depth[n]
                    },
            ),
            limit: self.limit + drop,
        }
    }

    /// The nodes of the subtree rooted at `n` in depth-first order: the
    /// subtrees of the children in insertion order, then `n` itself.
    pub open spec fn post_order(self, n: usize) -> Seq<usize>
        decreases self.limit - self.depth[n as int], self.children[n as int].len() + 1,
        when self.wf() && self.has(n)
    {
        self.post_order_prefix(n, self.children[n as int].len()).push(n)
    }

    /// The depth-first order of the subtrees of the first `k` children of `n`.
    pub open spec fn post_order_prefix(self, n: usize, k: nat) -> Seq<usize>
        decreases self.limit - self.depth[n as int], k,
        when self.wf() && self.has(n) && k <= self.children[n as int].len()
    {
        if k == 0 {
            Seq::empty()
        } else {
            self.post_order_prefix(n, (k - 1) as nat) + self.post_order(
                self.children[n as int][k - 1],
            )
        }
    }

    /// A node of a subtree is never higher up than the subtree's root.
    pub proof fn lemma_within_depth(self, a: usize, n: usize)
        requires
            self.wf(),
            self.has(n),
            self.within(a, n),
        ensures
            self.has(a),
            self.depth[a as int] <= self.depth[n as int],
        decreases self.depth[n as int],
    {
        if n != a {
            self.lemma_within_depth(a, self.parent[n as int].unwrap());
        }
    }

    /// A node has one ancestor at each depth: two subtrees whose roots are
    /// equally deep and that share a node are the same subtree.
    pub proof fn lemma_within_unique(self, a: usize, b: usize, n: usize)
        requires
            self.wf(),
            self.has(n),
            self.within(a, n),
            self.within(b, n),
            self.depth[a as int] == self.depth[b as int],
        ensures
            a == b,
        decreases self.depth[n as int],
    {
        self.lemma_within_depth(a, n);
        self.lemma_within_depth(b, n);
        if n == a || n == b {
            if n != a {
                self.lemma_within_depth(a, self.parent[n as int].unwrap());
            }
            if n != b {
                self.lemma_within_depth(b, self.parent[n as int].unwrap());
            }
        } else {
            self.lemma_within_unique(a, b, self.parent[n as int].unwrap());
        }
    }

    /// Subtrees nest: a node of a subtree inside another subtree lies in the
    /// outer one.
    pub proof fn lemma_within_transitive(self, a: usize, b: usize, n: usize)
        requires
            self.wf(),
            self.has(n),
            self.within(a, b),
            self.within(b, n),
        ensures
            self.within(a, n),
        decreases self.depth[n as int],
    {
        if n != b {
            self.lemma_within_transitive(a, b, self.parent[n as int].unwrap());
        }
    }

    /// Every node of a subtree other than its root lies in the subtree of one
    /// of the root's children.
    pub proof fn lemma_within_some_child(self, a: usize, n: usize) -> (i: int)
        requires
            self.wf(),
            self.has(n),
            self.within(a, n),
            n != a,
        ensures
            0 <= i < self.children[a as int].len(),
            self.within(self.children[a as int][i], n),
        decreases self.depth[n as int],
    {
        self.lemma_within_depth(a, n);
        let p = self.parent[n as int].unwrap();
        if p == a {
            let i = self.children[a as int].index_of(n);
            i
        } else {
            let i = self.lemma_within_some_child(a, p);
            i
        }
    }

    /// The subtrees of two different children of one node share no node, and
    /// neither holds the parent.
    pub proof fn lemma_siblings_disjoint(self, a: usize, i: int, j: int, n: usize)
        requires
            self.wf(),
            self.has(a),
            self.has(n),
            0 <= i < self.children[a as int].len(),
            0 <= j < self.children[a as int].len(),
            i != j,
            self.within(self.children[a as int][i], n),
        ensures
            !self.within(self.children[a as int][j], n),
            n != a,
    {
        let ci = self.children[a as int][i];
        let cj = self.children[a as int][j];
        self.lemma_within_depth(ci, n);
        if self.within(cj, n) {
            self.lemma_within_unique(ci, cj, n);
        }
    }
    /// Appending a root keeps a forest well formed and changes no subtree.
    pub proof fn lemma_with_root(self)
        requires
            self.wf(),
            self.len() < usize::MAX,
        ensures
            self.with_root().wf(),
            forall|a: usize, n: usize|
                self.has(n) ==> self.with_root().within(a, n) == self.within(a, n),
    {
        let g = self.with_root();
        assert(g.wf()) by {
            assert forall|n: int| 0 <= n < g.parent.len() implies match #[trigger] g.parent[n] {
                Some(p) => {
                    &&& p < g.parent.len()
                    &&& g.depth[n] == g.depth[p as int] + 1
                    &&& g.children[p as int].contains(n as usize)
                },
                None => g.depth[n] == 0,
            } by {
                if n < self.parent.len() {
                    assert(g.parent[n] == self.parent[n]);
                }
            }
            assert forall|n: int, i: int|
                0 <= n < g.parent.len() && 0 <= i < g.children[n].len() implies {
                &&& (#[trigger] g.children[n][i]) < g.parent.len()
                &&& g.parent[g.children[n][i] as int] == Some(n as usize)
            } by {
                assert(g.children[n] == self.children[n]);
                assert(self.children[n][i] < self.parent.len());
            }
            assert forall|n: int| 0 <= n < g.parent.len() implies (#[trigger] g.children[n]).no_duplicates() by {
                if n < self.parent.len() {
                    assert(g.children[n] == self.children[n]);
                }
            }
        }
        assert forall|a: usize, n: usize| self.has(n) implies g.within(a, n) == self.within(
            a,
            n,
        ) by {
            self.lemma_with_root_within(a, n);
        }
    }

    proof fn lemma_with_root_within(self, a: usize, n: usize)
        requires
            self.wf(),
            self.len() < usize::MAX,
            self.with_root().wf(),
            self.has(n),
        ensures
            self.with_root().within(a, n) == self.within(a, n),
        decreases self.depth[n as int],
    {
        let g = self.with_root();
        assert(g.parent[n as int] == self.parent[n as int]);
        if n != a {
            match self.parent[n as int] {
                Some(p) => {
                    self.lemma_with_root_within(a, p);
                },
                None => {},
            }
        }
    }

    /// Hanging a root below a node outside its subtree keeps a forest well
    /// formed.
    pub proof fn lemma_attach_wf(self, parent: usize, child: usize)
        requires
            self.wf(),
            self.attachable(parent, child),
        ensures
            self.attach(parent, child).wf(),
    {
        let g = self.attach(parent, child);
        assert(self.within(child, child));
        assert forall|n: int| 0 <= n < g.parent.len() implies match #[trigger] g.parent[n] {
            Some(p) => {
                &&& p < g.parent.len()
                &&& g.depth[n] == g.depth[p as int] + 1
                &&& g.children[p as int].contains(n as usize)
            },
            None => g.depth[n] == 0,
        } by {
            if n == child {
                assert(g.children[parent as int].last() == child);
            } else {
                match self.parent[n] {
                    Some(p) => {
                        assert(self.within(child, n as usize) == self.within(child, p));
                        let i = self.children[p as int].index_of(n as usize);
                        assert(g.children[p as int][i] == n as usize);
                    },
                    None => {
                        assert(!self.within(child, n as usize));
                    },
                }
            }
        }
        assert forall|n: int, i: int|
            0 <= n < g.parent.len() && 0 <= i < g.children[n].len() implies {
            &&& (#[trigger] g.children[n][i]) < g.parent.len()
            &&& g.parent[g.children[n][i] as int] == Some(n as usize)
        } by {
            if n == parent && i == self.children[n].len() {
            } else {
                assert(g.children[n][i] == self.children[n][i]);
                assert(self.children[n][i] < self.parent.len());
            }
        }
        assert forall|n: int| 0 <= n < g.parent.len() implies (#[trigger] g.children[n]).no_duplicates() by {
            if n == parent {
                assert forall|i: int| 0 <= i < self.children[n].len() implies self.children[n][i]
                    != child by {
                    assert(self.parent[self.children[n][i] as int] == Some(n as usize));
                }
            } else {
                assert(g.children[n] == self.children[n]);
            }
        }
    }

    /// After `child` was hung below `parent`, a subtree holds what it held
    /// before, and the subtrees around `parent` also hold what `child` held.
    pub proof fn lemma_attach_within(self, parent: usize, child: usize, a: usize, n: usize)
        requires
            self.wf(),
            self.attachable(parent, child),
            self.has(n),
        ensures
            self.attach(parent, child).within(a, n) == (self.within(a, n) || (self.within(child, n)
                && self.within(a, parent))),
        decreases self.attach(parent, child).depth[n as int],
    {
        let g = self.attach(parent, child);
        self.lemma_attach_wf(parent, child);
        assert(self.within(child, child));
        if n == a {
        } else if n == child {
            self.lemma_attach_within(parent, child, a, parent);
            assert(g.within(a, n) == g.within(a, parent));
        } else {
            assert(g.parent[n as int] == self.parent[n as int]);
            match self.parent[n as int] {
                Some(p) => {
                    self.lemma_attach_within(parent, child, a, p);
                    assert(g.within(a, n) == g.within(a, p));
                },
                None => {},
            }
        }
    }

    /// The depth-first order of a subtree holds exactly the subtree's nodes.
    pub proof fn lemma_post_order_members(self, n: usize, m: usize)
        requires
            self.wf(),
            self.has(n),
        ensures
            self.post_order(n).contains(m) <==> self.has(m) && self.within(n, m),
        decreases self.limit - self.depth[n as int], self.children[n as int].len() + 1,
    {
        let kids = self.children[n as int];
        let prefix = self.post_order_prefix(n, kids.len());
        self.lemma_post_order_prefix_members(n, kids.len(), m);
        lemma_seq_contains_after_push(prefix, n, m);
        if self.has(m) && self.within(n, m) && m != n {
            let i = self.lemma_within_some_child(n, m);
        }
        if prefix.contains(m) {
            let i = choose|i: int|
                0 <= i < kids.len() && self.within(#[trigger] self.children[n as int][i], m);
            assert(self.within(n, n));
            assert(self.within(n, kids[i]));
            self.lemma_within_transitive(n, kids[i], m);
        }
    }

    /// The depth-first order of the first `k` child subtrees holds exactly
    /// their nodes.
    pub proof fn lemma_post_order_prefix_members(self, n: usize, k: nat, m: usize)
        requires
            self.wf(),
            self.has(n),
            k <= self.children[n as int].len(),
        ensures
            self.post_order_prefix(n, k).contains(m) <==> self.has(m) && exists|i: int|
                0 <= i < k && self.within(#[trigger] self.children[n as int][i], m),
        decreases self.limit - self.depth[n as int], k,
    {
        let kids = self.children[n as int];
        if k == 0 {
            assert(!Seq::<usize>::empty().contains(m));
        } else {
            let c = kids[k - 1];
            assert(self.parent[c as int] == Some(n));
            self.lemma_post_order_prefix_members(n, (k - 1) as nat, m);
            self.lemma_post_order_members(c, m);
            lemma_seq_concat_contains_all_elements(
                self.post_order_prefix(n, (k - 1) as nat),
                self.post_order(c),
                m,
            );
            if self.post_order_prefix(n, k).contains(m) {
                if self.post_order(c).contains(m) {
                    assert(self.within(kids[k - 1], m));
                } else {
                    let i = choose|i: int|
                        0 <= i < k - 1 && self.within(#[trigger] self.children[n as int][i], m);
                    assert(self.within(kids[i], m));
                }
            }
        }
    }

    /// The depth-first order of a subtree visits no node twice.
    pub proof fn lemma_post_order_no_duplicates(self, n: usize)
        requires
            self.wf(),
            self.has(n),
        ensures
            self.post_order(n).no_duplicates(),
        decreases self.limit - self.depth[n as int], self.children[n as int].len() + 1,
    {
        let kids = self.children[n as int];
        let prefix = self.post_order_prefix(n, kids.len());
        self.lemma_post_order_prefix_no_duplicates(n, kids.len());
        self.lemma_post_order_prefix_members(n, kids.len(), n);
        if prefix.contains(n) {
            let i = choose|i: int|
                0 <= i < kids.len() && self.within(#[trigger] self.children[n as int][i], n);
            self.lemma_within_depth(kids[i], n);
        }
        assert forall|i: int| 0 <= i < prefix.len() implies prefix[i] != n by {
            assert(prefix.contains(prefix[i]));
        }
    }

    /// The depth-first order of the first `k` child subtrees visits no node
    /// twice.
    pub proof fn lemma_post_order_prefix_no_duplicates(self, n: usize, k: nat)
        requires
            self.wf(),
            self.has(n),
            k <= self.children[n as int].len(),
        ensures
            self.post_order_prefix(n, k).no_duplicates(),
        decreases self.limit - self.depth[n as int], k,
    {
        let kids = self.children[n as int];
        if k > 0 {
            let c = kids[k - 1];
            let before = self.post_order_prefix(n, (k - 1) as nat);
            let last = self.post_order(c);
            self.lemma_post_order_prefix_no_duplicates(n, (k - 1) as nat);
            self.lemma_post_order_no_duplicates(c);
            assert forall|i: int, j: int| 0 <= i < before.len() && 0 <= j < last.len() implies before[i]
                != last[j] by {
                let m = before[i];
                assert(before.contains(m));
                self.lemma_post_order_prefix_members(n, (k - 1) as nat, m);
                let e = choose|e: int|
                    0 <= e < k - 1 && self.within(#[trigger] self.children[n as int][e], m);
                self.lemma_siblings_disjoint(n, e, k - 1, m);
                self.lemma_post_order_members(c, m);
                if last[j] == m {
                    assert(last.contains(m));
                }
            }
            lemma_no_dup_in_concat(before, last);
        }
    }
}

} // verus!
