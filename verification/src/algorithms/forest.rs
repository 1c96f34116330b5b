//! Parent pointers over an arena of nodes, as a ghost model: which node lies
//! below which, and how much work a traversal has left.

use vstd::prelude::*;

verus! {

/// The shape of a tree stored in an arena: for every slot its parent's slot
/// and its distance from the root, which sits in slot 0.
pub struct Forest {
    pub parent: Seq<int>,
    pub level: Seq<nat>,
}

impl Forest {
    pub open spec fn len(self) -> int {
        self.parent.len() as int
    }

    /// Slot 0 is the root, and every other slot hangs one level below its
    /// parent.
    pub open spec fn wf(self) -> bool {
        &&& self.parent.len() == self.level.len()
        &&& self.parent.len() >= 1
        &&& self.level[0] == 0
        &&& forall|i: int|
            1 <= i < self.len() ==> {
                &&& 0 <= #[trigger] self.parent[i] < self.len()
                &&& self.level[i] == self.level[self.parent[i]] + 1
            }
    }

    /// The slot reached from `x` by `k` steps towards the root.
    pub open spec fn up(self, x: int, k: nat) -> int
        decreases k,
    {
        if k == 0 {
            x
        } else {
            self.up(self.parent[x], (k - 1) as nat)
        }
    }

    /// `x` is `n` or lies below it.
    pub open spec fn under(self, n: int, x: int) -> bool {
        &&& self.level[n] <= self.level[x]
        &&& self.up(x, (self.level[x] - self.level[n]) as nat) == n
    }

    pub proof fn lemma_up_valid(self, x: int, k: nat)
        requires
            self.wf(),
            0 <= x < self.len(),
            k <= self.level[x],
        ensures
            0 <= self.up(x, k) < self.len(),
            self.level[self.up(x, k)] == self.level[x] - k,
        decreases k,
    {
        if k > 0 {
            assert(x >= 1);
            self.lemma_up_valid(self.parent[x], (k - 1) as nat);
        }
    }

    pub proof fn lemma_up_step(self, x: int, k: nat)
        requires
            self.wf(),
            0 <= x < self.len(),
            k + 1 <= self.level[x],
        ensures
            self.up(x, k + 1) == self.parent[self.up(x, k)],
        decreases k,
    {
        assert(x >= 1);
        if k > 0 {
            self.lemma_up_step(self.parent[x], (k - 1) as nat);
            assert(self.up(x, k + 1) == self.up(self.parent[x], k));
        } else {
            assert(self.up(x, 1) == self.up(self.parent[x], 0));
        }
    }

    pub proof fn lemma_up_compose(self, x: int, j: nat, k: nat)
        requires
            self.wf(),
            0 <= x < self.len(),
            j + k <= self.level[x],
        ensures
            self.up(x, j + k) == self.up(self.up(x, j), k),
        decreases j,
    {
        if j > 0 {
            assert(x >= 1);
            self.lemma_up_compose(self.parent[x], (j - 1) as nat, k);
            assert(self.up(x, j + k) == self.up(self.parent[x], (j + k - 1) as nat));
        }
    }

    /// Everything lies under the root.
    pub proof fn lemma_under_root(self, x: int)
        requires
            self.wf(),
            0 <= x < self.len(),
        ensures
            self.under(0, x),
    {
        self.lemma_up_valid(x, self.level[x]);
        let r = self.up(x, self.level[x]);
        if r != 0 {
            assert(self.level[r] == self.level[self.parent[r]] + 1);
        }
    }

    /// A node that lies strictly below `n` lies under a node whose parent is
    /// `n`.
    pub proof fn lemma_under_child(self, n: int, x: int) -> (c: int)
        requires
            self.wf(),
            0 <= x < self.len(),
            0 <= n < self.len(),
            self.under(n, x),
            x != n,
        ensures
            1 <= c < self.len(),
            self.parent[c] == n,
            self.under(c, x),
    {
        let k = (self.level[x] - self.level[n]) as nat;
        assert(k > 0);
        let c = self.up(x, (k - 1) as nat);
        self.lemma_up_valid(x, (k - 1) as nat);
        self.lemma_up_step(x, (k - 1) as nat);
        if c == 0 {
            assert(self.level[c] == 0);
        }
        c
    }

    /// What lies under a node lies under its parent.
    pub proof fn lemma_under_parent(self, c: int, x: int)
        requires
            self.wf(),
            0 <= x < self.len(),
            1 <= c < self.len(),
            self.under(c, x),
        ensures
            self.under(self.parent[c], x),
    {
        let k = (self.level[x] - self.level[c]) as nat;
        self.lemma_up_step(x, k);
    }

    /// Two nodes above the same node are comparable.
    pub proof fn lemma_under_comparable(self, a: int, b: int, x: int)
        requires
            self.wf(),
            0 <= x < self.len(),
            0 <= a < self.len(),
            0 <= b < self.len(),
            self.under(a, x),
            self.under(b, x),
            self.level[a] <= self.level[b],
        ensures
            self.under(a, b),
    {
        let kb = (self.level[x] - self.level[b]) as nat;
        let d = (self.level[b] - self.level[a]) as nat;
        self.lemma_up_compose(x, kb, d);
    }

    /// Lying under is transitive.
    pub proof fn lemma_under_trans(self, a: int, b: int, x: int)
        requires
            self.wf(),
            0 <= x < self.len(),
            0 <= a < self.len(),
            0 <= b < self.len(),
            self.under(a, b),
            self.under(b, x),
        ensures
            self.under(a, x),
    {
        let kb = (self.level[x] - self.level[b]) as nat;
        let d = (self.level[b] - self.level[a]) as nat;
        self.lemma_up_compose(x, kb, d);
    }
}

/// An upper bound on the number of nodes in a subtree whose root has `gap`
/// levels below it, in a tree where every node has at most eight children.
pub open spec fn subtree_bound(gap: nat) -> nat
    decreases gap,
{
    if gap == 0 {
        1
    } else {
        8 * subtree_bound((gap - 1) as nat) + 1
    }
}

/// The work that a stack of pending nodes stands for.
pub open spec fn pending_work(stack: Seq<usize>, level: Seq<nat>, height: nat) -> nat
    decreases stack.len(),
{
    if stack.len() == 0 {
        0
    } else {
        pending_work(stack.drop_last(), level, height) + subtree_bound(
            (height - level[stack.last() as int]) as nat,
        )
    }
}

pub proof fn lemma_subtree_bound_positive(gap: nat)
    ensures
        subtree_bound(gap) >= 1,
    decreases gap,
{
    if gap > 0 {
        lemma_subtree_bound_positive((gap - 1) as nat);
    }
}

/// Pushing a node adds its bound to the pending work.
pub proof fn lemma_pending_work_push(stack: Seq<usize>, node: usize, level: Seq<nat>, height: nat)
    ensures
        pending_work(stack.push(node), level, height) == pending_work(stack, level, height)
            + subtree_bound((height - level[node as int]) as nat),
{
    assert(stack.push(node).drop_last() =~= stack);
}

} // verus!
