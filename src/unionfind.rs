use std::collections::HashMap;
use std::fmt::Debug;
use std::hash::Hash;
use std::rc::Rc;
use vstd::prelude::*;
use vstd::std_specs::hash::obeys_key_model;

verus! {

broadcast use vstd::std_specs::hash::group_hash_axioms;

/// Identifiers usable as keys: hashing and equality agree with equality of
/// values, and a clone equals the value it was made from.
///
/// vstd states the hashing half for the integer types, `bool` and `Box`es of
/// them, under `broadcast use vstd::std_specs::hash::group_hash_axioms`; a
/// verified caller with such keys proves this predicate with that `broadcast
/// use` in scope. For other key types (`&str`, `String`) vstd gives no such
/// fact, so verified callers cannot establish it; unverified callers rely on
/// their `Hash`, `Eq` and `Clone` impls behaving as plain values.
pub open spec fn key_model<T: Clone>() -> bool {
    &&& obeys_key_model::<T>()
    &&& forall|a: T, b: T| #[trigger] vstd::pervasive::strictly_cloned(a, b) ==> a == b
}

/// Sum of the ranks of the roots among the first `k` slots.
pub open spec fn root_rank_sum(parent: Seq<usize>, rank: Seq<usize>, k: int) -> int
    decreases k,
{
    if k <= 0 {
        0
    } else {
        root_rank_sum(parent, rank, k - 1) + if parent[k - 1] == k - 1 {
            rank[k - 1] as int
        } else {
            0
        }
    }
}

/// The model after inserting `t`: unchanged if `t` is present, else `t`
/// joins as the leader of a singleton group of rank 1.
pub open spec fn inserted<T>(m: Map<T, (T, nat)>, t: T) -> Map<T, (T, nat)> {
    if m.contains_key(t) {
        m
    } else {
        m.insert(t, (t, 1))
    }
}

/// What an optional shared handle points to.
pub open spec fn unwrap_rc<T>(r: Option<Rc<T>>) -> Option<T> {
    match r {
        Some(v) => Some(*v),
        None => None,
    }
}

/// The leader of `id`'s group, if `id` is present.
pub open spec fn leader_of<T>(m: Map<T, (T, nat)>, id: T) -> Option<T> {
    if m.contains_key(id) {
        Some(m[id].0)
    } else {
        None
    }
}

/// The leader that merging the groups of `x` and `y` keeps: the leader of
/// higher rank, and `x`'s leader when the ranks are equal.
pub open spec fn union_leader<T>(m: Map<T, (T, nat)>, x: T, y: T) -> T {
    if m[x].0 != m[y].0 && m[y].1 > m[x].1 {
        m[y].0
    } else {
        m[x].0
    }
}

/// The model after merging the groups of `x` and `y` (both present): every
/// member of either group gets the kept leader and the sum of the two ranks.
/// Nothing changes when they already share a leader.
pub open spec fn merged<T>(m: Map<T, (T, nat)>, x: T, y: T) -> Map<T, (T, nat)> {
    let lx = m[x].0;
    let ly = m[y].0;
    if lx == ly {
        m
    } else {
        Map::new(
            |k: T| m.contains_key(k),
            |k: T|
                if m[k].0 == lx || m[k].0 == ly {
                    (union_leader(m, x, y), m[x].1 + m[y].1)
                } else {
                    m[k]
                },
        )
    }
}

/// The leader that `union(x, y)` returns: none unless both are present.
pub open spec fn united<T>(m: Map<T, (T, nat)>, x: T, y: T) -> Option<T> {
    if m.contains_key(x) && m.contains_key(y) {
        Some(union_leader(m, x, y))
    } else {
        None
    }
}

/// The model after `union(x, y)`.
pub open spec fn after_union<T>(m: Map<T, (T, nat)>, x: T, y: T) -> Map<T, (T, nat)> {
    if m.contains_key(x) && m.contains_key(y) {
        merged(m, x, y)
    } else {
        m
    }
}

proof fn lemma_sum_nonneg(parent: Seq<usize>, rank: Seq<usize>, k: int)
    ensures
        root_rank_sum(parent, rank, k) >= 0,
    decreases k,
{
    if k > 0 {
        lemma_sum_nonneg(parent, rank, k - 1);
    }
}

proof fn lemma_sum_frame(p1: Seq<usize>, r1: Seq<usize>, p2: Seq<usize>, r2: Seq<usize>, k: int)
    requires
        0 <= k,
        k <= p1.len(),
        k <= p2.len(),
        k <= r1.len(),
        k <= r2.len(),
        forall|i: int| 0 <= i < k ==> (#[trigger] p1[i] == i <==> #[trigger] p2[i] == i),
        forall|i: int| 0 <= i < k && p1[i] == i ==> #[trigger] r1[i] == #[trigger] r2[i],
    ensures
        root_rank_sum(p1, r1, k) == root_rank_sum(p2, r2, k),
    decreases k,
{
    if k > 0 {
        lemma_sum_frame(p1, r1, p2, r2, k - 1);
    }
}

proof fn lemma_sum_update(parent: Seq<usize>, rank: Seq<usize>, k: int, j: int, a: usize, b: usize)
    requires
        0 <= j < k,
        k <= parent.len(),
        k <= rank.len(),
    ensures
        root_rank_sum(parent.update(j, a), rank.update(j, b), k) == root_rank_sum(parent, rank, k)
            - (if parent[j] == j {
            rank[j] as int
        } else {
            0
        }) + (if a == j {
            b as int
        } else {
            0
        }),
    decreases k,
{
    let p2 = parent.update(j, a);
    let r2 = rank.update(j, b);
    if j == k - 1 {
        lemma_sum_frame(parent, rank, p2, r2, k - 1);
    } else {
        lemma_sum_update(parent, rank, k - 1, j, a, b);
    }
}

proof fn lemma_sum_one_root(parent: Seq<usize>, rank: Seq<usize>, k: int, a: int)
    requires
        0 <= a < k,
        k <= parent.len(),
        k <= rank.len(),
        parent[a] == a,
    ensures
        rank[a] <= root_rank_sum(parent, rank, k),
    decreases k,
{
    lemma_sum_nonneg(parent, rank, k - 1);
    if a < k - 1 {
        lemma_sum_one_root(parent, rank, k - 1, a);
    }
}

proof fn lemma_sum_two_roots(parent: Seq<usize>, rank: Seq<usize>, k: int, a: int, b: int)
    requires
        0 <= a < k,
        0 <= b < k,
        a != b,
        k <= parent.len(),
        k <= rank.len(),
        parent[a] == a,
        parent[b] == b,
    ensures
        rank[a] + rank[b] <= root_rank_sum(parent, rank, k),
    decreases k,
{
    if a == k - 1 {
        lemma_sum_one_root(parent, rank, k - 1, b);
    } else if b == k - 1 {
        lemma_sum_one_root(parent, rank, k - 1, a);
    } else {
        lemma_sum_two_roots(parent, rank, k - 1, a, b);
    }
}

/// A model in which every leader is present, leads itself and carries its
/// group's rank, and every rank is positive.
pub open spec fn is_partition<T>(m: Map<T, (T, nat)>) -> bool {
    forall|k: T| #[trigger]
        m.contains_key(k) ==> m.contains_key(m[k].0) && m[m[k].0] == m[k] && m[k].1 >= 1
}

/// `p` lists the slots met when following parent links from `start` up to,
/// and not including, the root `r`.
pub open spec fn walk_to(parent: Seq<usize>, p: Seq<usize>, start: int, r: int) -> bool {
    &&& p.len() == 0 ==> start == r
    &&& p.len() > 0 ==> p[0] == start && parent[p.last() as int] == r
    &&& forall|j: int| 0 < j < p.len() ==> #[trigger] p[j] == parent[p[j - 1] as int]
}

/// A union-find structure over identifiers of type `T`.
///
/// Each identifier gets a dense slot in insertion order; the classical
/// array-based algorithm then runs over slots. The slot index is std's
/// `HashMap` with the insertion order kept in `ids`: vstd specifies that map
/// for any key type, whereas an insertion-ordered map crate would have its
/// contents named per key type, which a library generic in `T` cannot do.
///
/// `Debug` is not derived: the ghost fields do not implement it.
#[derive(Clone)]
pub struct UnionFind<T: Hash + Eq + Clone + Debug> {
    /// Slot of each identifier.
    index: HashMap<T, usize>,
    /// Identifier of each slot, in insertion order.
    ids: Vec<T>,
    /// Parent slot of each slot; a root is its own parent.
    parent: Vec<usize>,
    /// Rank of each slot; only meaningful at roots.
    rank: Vec<usize>,
    /// Root slot of each slot.
    root: Ghost<Seq<int>>,
    /// Length of the parent chain from each slot to its root (an upper bound).
    dist: Ghost<Seq<nat>>,
}

impl<T: Hash + Eq + Clone + Debug> View for UnionFind<T> {
    /// Each identifier mapped to its group's leader and the group's rank.
    type V = Map<T, (T, nat)>;

    closed spec fn view(&self) -> Map<T, (T, nat)> {
        Map::new(
            |k: T| self.index@.contains_key(k),
            |k: T|
                (
                    self.ids@[self.root@[self.index@[k] as int]],
                    self.rank@[self.root@[self.index@[k] as int]] as nat,
                ),
        )
    }
}

impl<T: Hash + Eq + Clone + Debug> UnionFind<T> {
    /// The identifiers in the order in which they were first inserted.
    pub closed spec fn ids(&self) -> Seq<T> {
        self.ids@
    }

    /// The slot of `id` links straight to its leader's slot: the next
    /// lookup of `id` takes at most one step.
    pub closed spec fn points_at_leader(&self, id: T) -> bool {
        let i = self.index@[id] as int;
        self.parent@[i] == self.root@[i]
    }

    pub closed spec fn node_ok(&self, i: int) -> bool {
        let n = self.ids@.len();
        let p = self.parent@[i] as int;
        let r = self.root@[i];
        &&& 0 <= p < n
        &&& 0 <= r < n
        &&& self.parent@[r] == r
        &&& self.rank@[i] >= 1
        &&& p == i ==> r == i && self.dist@[i] == 0
        &&& p != i ==> self.root@[p] == r && self.dist@[p] < self.dist@[i]
    }

    /// The internal invariant: the slot index is a bijection with the
    /// identifiers, every parent chain ends at a root, and the ranks of
    /// the roots add up to the number of identifiers.
    pub closed spec fn wf(&self) -> bool {
        let n = self.ids@.len();
        &&& self.parent@.len() == n
        &&& self.rank@.len() == n
        &&& self.root@.len() == n
        &&& self.dist@.len() == n
        &&& forall|k: T| #[trigger]
            self.index@.contains_key(k) ==> self.index@[k] < n && self.ids@[self.index@[k] as int]
                == k
        &&& forall|i: int|
            0 <= i < n ==> #[trigger] self.index@.contains_key(self.ids@[i])
                && self.index@[self.ids@[i]] == i
        &&& forall|i: int| 0 <= i < n ==> #[trigger] self.node_ok(i)
        &&& root_rank_sum(self.parent@, self.rank@, n as int) == n
    }

    /// An empty structure.
    pub fn new() -> (r: Self)
        ensures
            r.wf(),
            r@ == Map::<T, (T, nat)>::empty(),
            r.ids() == Seq::<T>::empty(),
    {
        let r = UnionFind {
            index: HashMap::new(),
            ids: Vec::new(),
            parent: Vec::new(),
            rank: Vec::new(),
            root: Ghost(Seq::empty()),
            dist: Ghost(Seq::empty()),
        };
        assert(r@ =~= Map::<T, (T, nat)>::empty());
        r
    }

    /// The number of distinct identifiers inserted so far.
    pub fn size(&self) -> (r: usize)
        requires
            self.wf(),
        ensures
            r == self.ids().len(),
            r == self@.dom().len(),
    {
        proof {
            lemma_view_is_partition(self);
            self.ids().unique_seq_to_set();
        }
        self.ids.len()
    }

    /// Adds `t` as a singleton group of rank 1; does nothing if `t` is
    /// already present.
    pub fn insert(&mut self, t: T)
        requires
            old(self).wf(),
            key_model::<T>(),
        ensures
            final(self).wf(),
            final(self)@ == inserted(old(self)@, t),
            final(self).ids() == if old(self)@.contains_key(t) {
                old(self).ids()
            } else {
                old(self).ids().push(t)
            },
    {
        if self.index.contains_key(&t) {
            return;
        }
        let ghost pre = *self;
        let n = self.ids.len();
        let c = t.clone();
        self.index.insert(t, n);
        self.ids.push(c);
        self.parent.push(n);
        self.rank.push(1);
        self.root = Ghost(self.root@.push(n as int));
        self.dist = Ghost(self.dist@.push(0));
        proof {
            assert(vstd::pervasive::strictly_cloned(t, c));
            assert(c == t);
            lemma_sum_frame(pre.parent@, pre.rank@, self.parent@, self.rank@, n as int);
            assert forall|i: int| 0 <= i < n + 1 implies #[trigger] self.node_ok(i) by {
                if i < n {
                    assert(pre.node_ok(i));
                }
            }
            assert forall|k: T| #[trigger] self.index@.contains_key(k) implies self.index@[k] < n + 1
                && self.ids@[self.index@[k] as int] == k by {
                if k != t {
                    assert(pre.index@.contains_key(k));
                }
            }
            assert forall|i: int| 0 <= i < n + 1 implies #[trigger] self.index@.contains_key(self.ids@[i])
                && self.index@[self.ids@[i]] == i by {
                if i < n {
                    assert(pre.index@.contains_key(pre.ids@[i]));
                }
            }
            assert forall|k: T| #[trigger] pre.index@.contains_key(k) implies self@[k] == pre@[k] by {
                let i = pre.index@[k] as int;
                assert(pre.node_ok(i));
            }
            assert(self@ =~= inserted(pre@, t));
        }
    }
    /// Walks from slot `start` to its root, then points every slot met on
    /// the way directly at the root.
    fn find_root(&mut self, start: usize) -> (r: usize)
        requires
            old(self).wf(),
            start < old(self).ids@.len(),
        ensures
            final(self).wf(),
            r == old(self).root@[start as int],
            final(self).ids@ == old(self).ids@,
            final(self).index@ == old(self).index@,
            final(self).root@ == old(self).root@,
            forall|i: int|
                0 <= i < old(self).ids@.len() ==> (#[trigger] final(self).parent@[i] == i
                    <==> old(self).parent@[i] == i),
            forall|i: int|
                0 <= i < old(self).ids@.len() && old(self).parent@[i] == i
                    ==> #[trigger] final(self).rank@[i] == old(self).rank@[i],
            final(self)@ == old(self)@,
            final(self).parent@[start as int] == r,
            exists|p: Seq<usize>|
                walk_to(old(self).parent@, p, start as int, r as int) && forall|j: int|
                    0 <= j < p.len() ==> #[trigger] final(self).parent@[p[j] as int] == r,
            forall|k: int|
                0 <= k < old(self).ids@.len() ==> #[trigger] final(self).parent@[k]
                    == old(self).parent@[k] || final(self).parent@[k] == r,
    {
        let ghost pre = *self;
        let ghost n = pre.ids@.len() as int;
        let ghost top = pre.root@[start as int];
        let mut cur = start;
        let mut path: Vec<usize> = Vec::new();
        while self.parent[cur] != cur
            invariant
                *self == pre,
                pre.wf(),
                n == pre.ids@.len(),
                top == pre.root@[start as int],
                cur < n,
                pre.root@[cur as int] == top,
                forall|j: int|
                    0 <= j < path@.len() ==> #[trigger] path@[j] < n && pre.parent@[path@[j] as int]
                        != path@[j] && pre.root@[path@[j] as int] == top,
                walk_to(pre.parent@, path@, start as int, cur as int),
            decreases pre.dist@[cur as int],
        {
            proof {
                assert(pre.node_ok(cur as int));
            }
            path.push(cur);
            cur = self.parent[cur];
        }
        proof {
            assert(pre.node_ok(cur as int));
        }
        let r = cur;
        let rr = self.rank[r];
        let mut i: usize = 0;
        while i < path.len()
            invariant
                self.wf(),
                pre.wf(),
                n == pre.ids@.len(),
                top == pre.root@[start as int],
                r == top,
                0 <= r < n,
                pre.parent@[r as int] == r,
                rr == pre.rank@[r as int],
                self.ids@ == pre.ids@,
                self.index@ == pre.index@,
                self.root@ == pre.root@,
                forall|k: int| 0 <= k < n ==> (#[trigger] self.parent@[k] == k <==> pre.parent@[k] == k),
                forall|k: int|
                    0 <= k < n && pre.parent@[k] == k ==> #[trigger] self.rank@[k] == pre.rank@[k],
                forall|j: int|
                    0 <= j < path@.len() ==> #[trigger] path@[j] < n && pre.parent@[path@[j] as int]
                        != path@[j] && pre.root@[path@[j] as int] == top,
                walk_to(pre.parent@, path@, start as int, r as int),
                i <= path@.len(),
                forall|j: int| 0 <= j < i ==> #[trigger] self.parent@[path@[j] as int] == r,
                forall|k: int|
                    0 <= k < n ==> #[trigger] self.parent@[k] == pre.parent@[k] || self.parent@[k]
                        == r,
            decreases path.len() - i,
        {
            let u = path[i];
            let ghost before = *self;
            proof {
                assert(before.node_ok(u as int));
                assert(before.node_ok(r as int));
                assert(before.parent@[u as int] != u);
            }
            self.parent[u] = r;
            self.rank[u] = rr;
            self.dist = Ghost(self.dist@.update(u as int, 1));
            proof {
                assert forall|j: int| 0 <= j < n implies #[trigger] self.node_ok(j) by {
                    assert(before.node_ok(j));
                    if j != u {
                        assert(before.root@[j] != u);
                    }
                }
                lemma_sum_frame(before.parent@, before.rank@, self.parent@, self.rank@, n);
            }
            i += 1;
        }
        proof {
            assert forall|k: T| #[trigger] pre.index@.contains_key(k) implies self@[k] == pre@[k] by {
                let j = pre.index@[k] as int;
                assert(pre.node_ok(j));
            }
            assert(self@ =~= pre@);
            assert(pre.node_ok(start as int));
        }
        r
    }

    /// The leader of `id`'s group, or `None` if `id` was never inserted.
    /// Compresses the path from `id` to its leader; the groups, leaders and
    /// ranks stay as they were.
    pub fn find(&mut self, id: &T) -> (r: Option<Rc<T>>)
        requires
            old(self).wf(),
            key_model::<T>(),
        ensures
            final(self).wf(),
            final(self)@ == old(self)@,
            final(self).ids() == old(self).ids(),
            unwrap_rc(r) == leader_of(old(self)@, *id),
            old(self)@.contains_key(*id) ==> final(self).points_at_leader(*id),
    {
        match self.index.get(id) {
            None => None,
            Some(i) => {
                let i = *i;
                let root = self.find_root(i);
                proof {
                    assert(self.node_ok(i as int));
                }
                let leader = self.ids[root].clone();
                proof {
                    assert(vstd::pervasive::strictly_cloned(self.ids@[root as int], leader));
                }
                Some(Rc::new(leader))
            },
        }
    }
    /// Merges the groups of `x` and `y` and returns the leader of the
    /// merged group, or `None` (changing nothing) if either was never
    /// inserted. The leader of higher rank is kept, `x`'s on a tie; the
    /// merged group's rank is the sum of the two ranks. When `x` and `y`
    /// already share a leader, that leader is returned and nothing changes.
    pub fn union(&mut self, x: &T, y: &T) -> (r: Option<Rc<T>>)
        requires
            old(self).wf(),
            key_model::<T>(),
        ensures
            final(self).wf(),
            final(self)@ == after_union(old(self)@, *x, *y),
            final(self).ids() == old(self).ids(),
            unwrap_rc(r) == united(old(self)@, *x, *y),
    {
        let ix = match self.index.get(x) {
            None => return None,
            Some(i) => *i,
        };
        let iy = match self.index.get(y) {
            None => return None,
            Some(i) => *i,
        };
        let ghost pre = *self;
        let rx = self.find_root(ix);
        let ry = self.find_root(iy);
        let ghost mid = *self;
        let ghost n = mid.ids@.len() as int;
        proof {
            assert(mid.node_ok(ix as int));
            assert(mid.node_ok(iy as int));
            assert(mid.node_ok(rx as int));
            assert(mid.node_ok(ry as int));
        }
        if rx == ry {
            let leader = self.ids[rx].clone();
            proof {
                assert(vstd::pervasive::strictly_cloned(self.ids@[rx as int], leader));
            }
            return Some(Rc::new(leader));
        }
        let x_rank = self.rank[rx];
        let y_rank = self.rank[ry];
        let total = self.ids.len();
        proof {
            lemma_sum_two_roots(mid.parent@, mid.rank@, n, rx as int, ry as int);
            assert(x_rank + y_rank <= total);
        }
        let sum = x_rank + y_rank;
        let (win, lose) = if y_rank > x_rank {
            (ry, rx)
        } else {
            (rx, ry)
        };
        self.parent[lose] = win;
        self.rank[lose] = sum;
        self.rank[win] = sum;
        let ghost root0 = mid.root@;
        let ghost dist0 = mid.dist@;
        self.root = Ghost(
            Seq::new(
                n as nat,
                |i: int|
                    if root0[i] == lose {
                        win as int
                    } else {
                        root0[i]
                    },
            ),
        );
        self.dist = Ghost(
            Seq::new(
                n as nat,
                |i: int|
                    if root0[i] == lose {
                        dist0[i] + 1
                    } else {
                        dist0[i]
                    },
            ),
        );
        proof {
            assert forall|j: int| 0 <= j < n implies #[trigger] self.node_ok(j) by {
                assert(mid.node_ok(j));
                assert(mid.node_ok(mid.parent@[j] as int));
            }
            let p1 = mid.parent@.update(lose as int, win);
            let r1 = mid.rank@.update(lose as int, sum);
            lemma_sum_update(mid.parent@, mid.rank@, n, lose as int, win, sum);
            lemma_sum_update(p1, r1, n, win as int, win, sum);
            assert(self.parent@ =~= p1.update(win as int, win));
            assert(self.rank@ =~= r1.update(win as int, sum));
            assert forall|i: int| 0 <= i < n implies #[trigger] self.index@.contains_key(self.ids@[i])
                && self.index@[self.ids@[i]] == i by {
                assert(mid.index@.contains_key(mid.ids@[i]));
            }
            let m = pre@;
            assert(m[*x].0 == self.ids@[rx as int]);
            assert(m[*y].0 == self.ids@[ry as int]);
            assert forall|k: T| #[trigger] m.contains_key(k) implies self@[k] == merged(m, *x, *y)[k] by {
                let j = mid.index@[k] as int;
                assert(mid.node_ok(j));
                assert(mid.index@.contains_key(mid.ids@[rx as int]));
                assert(mid.index@.contains_key(mid.ids@[ry as int]));
                assert(mid.index@.contains_key(mid.ids@[root0[j]]));
            }
            assert(self@ =~= merged(m, *x, *y));
        }
        let leader = self.ids[win].clone();
        proof {
            assert(vstd::pervasive::strictly_cloned(self.ids@[win as int], leader));
        }
        Some(Rc::new(leader))
    }
}


impl<T: Hash + Eq + Clone + Debug> Default for UnionFind<T> {
    fn default() -> (r: Self)
        ensures
            r.wf(),
            r@ == Map::<T, (T, nat)>::empty(),
            r.ids() == Seq::<T>::empty(),
    {
        Self::new()
    }
}

/// In a well-formed structure every leader is itself present, is its own
/// leader and carries its group's rank, and every rank is positive.
pub proof fn lemma_view_is_partition<T: Hash + Eq + Clone + Debug>(uf: &UnionFind<T>)
    requires
        uf.wf(),
    ensures
        is_partition(uf@),
        uf@.dom() == uf.ids().to_set(),
        uf.ids().no_duplicates(),
{
    assert forall|k: T| #[trigger] uf@.contains_key(k) implies uf@.contains_key(uf@[k].0)
        && uf@[uf@[k].0] == uf@[k] && uf@[k].1 >= 1 by {
        let i = uf.index@[k] as int;
        assert(uf.node_ok(i));
        let r = uf.root@[i];
        assert(uf.node_ok(r));
        assert(uf.index@.contains_key(uf.ids@[r]));
    }
    assert forall|k: T| uf@.contains_key(k) <==> #[trigger] uf.ids().to_set().contains(k) by {
        if uf@.contains_key(k) {
            assert(uf.ids@[uf.index@[k] as int] == k);
        }
        if uf.ids().to_set().contains(k) {
            let i = choose|i: int| 0 <= i < uf.ids@.len() && uf.ids@[i] == k;
            assert(uf.index@.contains_key(uf.ids@[i]));
        }
    }
    assert(uf@.dom() =~= uf.ids().to_set());
    assert forall|i: int, j: int|
        0 <= i < uf.ids@.len() && 0 <= j < uf.ids@.len() && i != j implies uf.ids@[i]
        != uf.ids@[j] by {
        assert(uf.index@.contains_key(uf.ids@[i]));
        assert(uf.index@.contains_key(uf.ids@[j]));
    }
}

} // verus!
