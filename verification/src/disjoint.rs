//! A disjoint-set forest over `0..n` with path compression and union by size.

use vstd::prelude::*;

verus! {

/// The total of `size[k]` over the roots `k < upto` of the forest `parent`.
pub open spec fn root_weight(parent: Seq<usize>, size: Seq<usize>, upto: int) -> int
    decreases upto,
{
    if upto <= 0 {
        0
    } else {
        root_weight(parent, size, upto - 1) + if parent[upto - 1] == upto - 1 {
            size[upto - 1] as int
        } else {
            0
        }
    }
}

proof fn lemma_root_weight_nonneg(parent: Seq<usize>, size: Seq<usize>, upto: int)
    ensures
        root_weight(parent, size, upto) >= 0,
    decreases upto,
{
    if upto > 0 {
        lemma_root_weight_nonneg(parent, size, upto - 1);
    }
}

/// Changing the parent of nodes that are not roots, to nodes other than
/// themselves, leaves the total unchanged.
proof fn lemma_root_weight_same(pa: Seq<usize>, pb: Seq<usize>, size: Seq<usize>, upto: int)
    requires
        0 <= upto <= pa.len(),
        pa.len() == pb.len(),
        forall|k: int| 0 <= k < upto ==> ((pa[k] == k) <==> (#[trigger] pb[k] == k)),
    ensures
        root_weight(pa, size, upto) == root_weight(pb, size, upto),
    decreases upto,
{
    if upto > 0 {
        lemma_root_weight_same(pa, pb, size, upto - 1);
    }
}

/// Two distinct roots weigh together no more than the whole forest.
proof fn lemma_root_weight_two(parent: Seq<usize>, size: Seq<usize>, upto: int, a: int, b: int)
    requires
        0 <= a < upto,
        0 <= b < upto,
        a != b,
        parent[a] == a,
        parent[b] == b,
    ensures
        size[a] + size[b] <= root_weight(parent, size, upto),
    decreases upto,
{
    if a == upto - 1 {
        lemma_root_weight_one(parent, size, upto - 1, b);
    } else if b == upto - 1 {
        lemma_root_weight_one(parent, size, upto - 1, a);
    } else {
        lemma_root_weight_two(parent, size, upto - 1, a, b);
    }
}

proof fn lemma_root_weight_one(parent: Seq<usize>, size: Seq<usize>, upto: int, a: int)
    requires
        0 <= a < upto,
        parent[a] == a,
    ensures
        size[a] <= root_weight(parent, size, upto),
    decreases upto,
{
    if a == upto - 1 {
        lemma_root_weight_nonneg(parent, size, upto - 1);
    } else {
        lemma_root_weight_one(parent, size, upto - 1, a);
    }
}

/// Hanging the root `a` below the root `b`, and crediting `b` with the weight
/// of `a`, leaves the total unchanged.
proof fn lemma_root_weight_link(
    parent: Seq<usize>,
    size: Seq<usize>,
    upto: int,
    a: int,
    b: int,
    total: usize,
)
    requires
        0 <= upto <= parent.len(),
        parent.len() == size.len(),
        0 <= a < parent.len(),
        0 <= b < parent.len(),
        a != b,
        parent[a] == a,
        parent[b] == b,
        total == size[a] + size[b],
    ensures
        root_weight(parent.update(a, b as usize), size.update(b, total), upto) == root_weight(
            parent,
            size,
            upto,
        ) - (if a < upto { size[a] as int } else { 0 }) + (if b < upto { size[a] as int } else { 0 }),
    decreases upto,
{
    if upto > 0 {
        lemma_root_weight_link(parent, size, upto - 1, a, b, total);
    }
}

/// A partition of `0..n` into classes, each named by one of its members.
pub struct DisjointSets {
    parent: Vec<usize>,
    size: Vec<usize>,
    repr: Ghost<Seq<int>>,
    rank: Ghost<Seq<nat>>,
    bound: Ghost<nat>,
}

impl View for DisjointSets {
    type V = Seq<int>;

    /// For each element, the representative of its class.
    closed spec fn view(&self) -> Seq<int> {
        self.repr@
    }
}

impl DisjointSets {
    /// The forest is acyclic, every element's representative is the root of
    /// its tree, and the weights of the roots add up to the element count.
    pub closed spec fn wf(&self) -> bool {
        let n = self.parent@.len();
        &&& self.size@.len() == n
        &&& self.repr@.len() == n
        &&& self.rank@.len() == n
        &&& forall|i: int| 0 <= i < n ==> (#[trigger] self.parent@[i]) < n
        &&& forall|i: int|
            0 <= i < n ==> 0 <= (#[trigger] self.repr@[i]) < n && self.parent@[self.repr@[i]]
                == self.repr@[i]
        &&& forall|i: int|
            0 <= i < n ==> self.repr@[(#[trigger] self.parent@[i]) as int] == self.repr@[i]
        &&& forall|i: int| 0 <= i < n && (#[trigger] self.parent@[i]) == i ==> self.repr@[i] == i
        &&& forall|i: int|
            0 <= i < n && (#[trigger] self.parent@[i]) != i ==> self.rank@[i]
                < self.rank@[self.parent@[i] as int] && self.rank@[i] < self.rank@[self.repr@[i]]
        &&& forall|i: int| 0 <= i < n ==> (#[trigger] self.rank@[i]) <= self.bound@
        &&& root_weight(self.parent@, self.size@, n as int) == n
    }

    /// The weight recorded at `i`: for a representative, the weight of its
    /// class as accumulated by `union`.
    pub closed spec fn weight(&self, i: int) -> nat {
        self.size@[i] as nat
    }

    /// The element that `i` points to in the forest: itself for a
    /// representative, else an element nearer to the representative.
    pub closed spec fn parent(&self, i: int) -> int {
        self.parent@[i] as int
    }

    /// The element reached from `i` by going from an element to the one it
    /// points to, `steps` times.
    pub closed spec fn ancestor(&self, i: int, steps: nat) -> int
        decreases steps,
    {
        if steps == 0 {
            i
        } else {
            self.parent@[self.ancestor(i, (steps - 1) as nat)] as int
        }
    }

    /// From an element that points to itself, going on leads nowhere else.
    proof fn lemma_stays_at_root(&self, i: int, reached: nat, steps: nat)
        requires
            reached <= steps,
            0 <= self.ancestor(i, reached) < self.parent@.len(),
            self.parent@[self.ancestor(i, reached)] == self.ancestor(i, reached),
        ensures
            self.ancestor(i, steps) == self.ancestor(i, reached),
        decreases steps - reached,
    {
        if reached < steps {
            self.lemma_stays_at_root(i, reached, (steps - 1) as nat);
        }
    }

    /// Every representative is an element, and represents itself.
    pub proof fn lemma_representatives(&self)
        requires
            self.wf(),
        ensures
            forall|i: int|
                0 <= i < self@.len() ==> 0 <= (#[trigger] self@[i]) < self@.len()
                    && self@[self@[i]] == self@[i] && self.parent(self@[i]) == self@[i],
            forall|i: int|
                0 <= i < self@.len() ==> 0 <= (#[trigger] self.parent(i)) < self@.len() && self@[self.parent(
                    i,
                )] == self@[i],
    {
        assert forall|i: int| 0 <= i < self@.len() implies 0 <= (#[trigger] self.parent(i)) < self@.len()
            && self@[self.parent(i)] == self@[i] by {
            assert(self.parent@[i] < self.parent@.len());
        }
    }

    /// The partition of `0..n` into singletons, each of weight one.
    pub fn new(n: usize) -> (s: DisjointSets)
        ensures
            s.wf(),
            s@.len() == n,
            forall|i: int| 0 <= i < n ==> #[trigger] s@[i] == i && s.weight(i) == 1 && s.parent(i) == i,
    {
        let mut parent: Vec<usize> = Vec::new();
        let mut size: Vec<usize> = Vec::new();
        let mut i: usize = 0;
        while i < n
            invariant
                i <= n,
                parent@.len() == i,
                size@.len() == i,
                forall|k: int| 0 <= k < i ==> parent@[k] == k && size@[k] == 1,
                root_weight(parent@, size@, i as int) == i,
            decreases n - i,
        {
            let ghost p0 = parent@;
            let ghost s0 = size@;
            parent.push(i);
            size.push(1);
            proof {
                assert(root_weight(parent@, size@, i as int) == root_weight(p0, s0, i as int)) by {
                    lemma_root_weight_prefix(p0, s0, parent@, size@, i as int);
                }
            }
            i += 1;
        }
        DisjointSets {
            parent,
            size,
            repr: Ghost(Seq::new(n as nat, |k: int| k)),
            rank: Ghost(Seq::new(n as nat, |k: int| 0nat)),
            bound: Ghost(0nat),
        }
    }

    /// The number of elements.
    pub fn len(&self) -> (n: usize)
        requires
            self.wf(),
        ensures
            n == self@.len(),
    {
        self.parent.len()
    }

    /// The representative of the class of `i`. The partition is unchanged.
    /// The path from `i` to the representative is shortened: `i` and every
    /// element that was on the way from `i` to the representative now
    /// point at the representative, and every other element points where
    /// it pointed before.
    pub fn find(&mut self, i: usize) -> (r: usize)
        requires
            old(self).wf(),
            i < old(self)@.len(),
        ensures
            final(self).wf(),
            final(self)@ == old(self)@,
            forall|k: int| final(self).weight(k) == old(self).weight(k),
            r == old(self)@[i as int],
            final(self).parent(i as int) == r,
            forall|steps: nat| final(self).parent(#[trigger] old(self).ancestor(i as int, steps)) == r,
            forall|k: int|
                0 <= k < old(self)@.len() ==> #[trigger] final(self).parent(k) == old(self).parent(k)
                    || (final(self).parent(k) == r && exists|steps: nat|
                    old(self).ancestor(i as int, steps) == k),
    {
        let mut root: usize = i;
        while self.parent[root] != root
            invariant
                self.wf(),
                *self == *old(self),
                root < self.parent@.len(),
                self.repr@[root as int] == self.repr@[i as int],
            decreases self.bound@ - self.rank@[root as int],
        {
            root = self.parent[root];
        }
        let mut cur: usize = i;
        let ghost done: nat = 0;
        while self.parent[cur] != cur
            invariant
                self.wf(),
                old(self).wf(),
                self.repr@ == old(self).repr@,
                self.size@ == old(self).size@,
                self.rank@ == old(self).rank@,
                self.parent@.len() == old(self).parent@.len(),
                i < self.parent@.len(),
                cur < self.parent@.len(),
                root < self.parent@.len(),
                self.repr@[cur as int] == root,
                self.parent@[root as int] == root,
                cur == old(self).ancestor(i as int, done),
                forall|s: nat|
                    s < done ==> 0 <= #[trigger] old(self).ancestor(i as int, s) < self.parent@.len()
                        && self.parent@[old(self).ancestor(i as int, s)] == root && self.rank@[old(self).ancestor(i as int, s)] < self.rank@[cur as int],
                forall|k: int|
                    0 <= k < self.parent@.len() ==> #[trigger] self.parent@[k] == old(self).parent@[k] || (
                    self.parent@[k] == root && exists|s: nat| s < done && old(self).ancestor(i as int, s) == k),
                forall|k: int|
                    0 <= k < self.parent@.len() && self.rank@[k] >= self.rank@[cur as int]
                        ==> #[trigger] self.parent@[k] == old(self).parent@[k],
            decreases self.bound@ - self.rank@[cur as int],
        {
            let next: usize = self.parent[cur];
            let ghost p0 = self.parent@;
            let ghost before = cur;
            self.parent.set(cur, root);
            proof {
                lemma_root_weight_same(p0, self.parent@, self.size@, p0.len() as int);
                assert(p0[before as int] == old(self).parent@[before as int]);
                assert(next == old(self).ancestor(i as int, done + 1));
                assert(old(self).ancestor(i as int, done) == before);
                assert(self.rank@[before as int] < self.rank@[next as int]);
            }
            cur = next;
            proof {
                done = done + 1;
            }
        }
        proof {
            assert(self.parent@[root as int] == old(self).parent@[root as int]);
            assert forall|steps: nat| self.parent@[#[trigger] old(self).ancestor(i as int, steps)] == root by {
                if steps >= done {
                    old(self).lemma_stays_at_root(i as int, done, steps);
                }
            }
        }
        root
    }

    /// Merges the classes of `a` and `b`. The representative of the heavier
    /// class (of `a`'s, when they weigh the same) represents the merged class
    /// and takes the weight of both.
    pub fn union(&mut self, a: usize, b: usize)
        requires
            old(self).wf(),
            a < old(self)@.len(),
            b < old(self)@.len(),
        ensures
            final(self).wf(),
            final(self)@.len() == old(self)@.len(),
            final(self)@[a as int] == merged_representative(*old(self), a as int, b as int),
            forall|k: int|
                0 <= k < old(self)@.len() ==> #[trigger] final(self)@[k] == if old(self)@[k] == old(self)@[a as int] || old(self)@[k] == old(self)@[b as int] {
                    final(self)@[a as int]
                } else {
                    old(self)@[k]
                },
            forall|k: int|
                0 <= k < old(self)@.len() ==> #[trigger] final(self).weight(k) == if old(self)@[a as int]
                    != old(self)@[b as int] && k == final(self)@[a as int] {
                    old(self).weight(old(self)@[a as int]) + old(self).weight(old(self)@[b as int])
                } else {
                    old(self).weight(k)
                },
    {
        let ra: usize = self.find(a);
        let rb: usize = self.find(b);
        if ra == rb {
            return ;
        }
        let n: usize = self.parent.len();
        proof {
            assert(self.parent@[ra as int] == ra);
            assert(self.parent@[rb as int] == rb);
            lemma_root_weight_two(self.parent@, self.size@, n as int, ra as int, rb as int);
        }
        let wa: usize = self.size[ra];
        let wb: usize = self.size[rb];
        if wa < wb {
            self.link(ra, rb);
        } else {
            self.link(rb, ra);
        }
    }

    /// Hangs the root `child` below the root `top`.
    fn link(&mut self, child: usize, top: usize)
        requires
            old(self).wf(),
            child < old(self)@.len(),
            top < old(self)@.len(),
            child != top,
            old(self)@[child as int] == child,
            old(self)@[top as int] == top,
            old(self).weight(child as int) + old(self).weight(top as int) <= usize::MAX,
        ensures
            final(self).wf(),
            final(self)@.len() == old(self)@.len(),
            forall|k: int|
                0 <= k < old(self)@.len() ==> #[trigger] final(self)@[k] == if old(self)@[k] == child {
                    top as int
                } else {
                    old(self)@[k]
                },
            forall|k: int|
                0 <= k < old(self)@.len() ==> #[trigger] final(self).weight(k) == if k == top {
                    old(self).weight(child as int) + old(self).weight(top as int)
                } else {
                    old(self).weight(k)
                },
    {
        let ghost p0 = self.parent@;
        let ghost s0 = self.size@;
        let ghost r0 = self.repr@;
        let ghost k0 = self.rank@;
        let ghost n = p0.len();
        assert(p0[child as int] == child);
        assert(p0[top as int] == top);
        let total: usize = self.size[child] + self.size[top];
        self.parent.set(child, top);
        self.size.set(top, total);
        proof {
            let new_rank: nat = if k0[top as int] > k0[child as int] {
                k0[top as int]
            } else {
                k0[child as int] + 1
            };
            self.repr = Ghost(Seq::new(n, |k: int| if r0[k] == child { top as int } else { r0[k] }));
            self.rank = Ghost(k0.update(top as int, new_rank));
            self.bound = Ghost(if self.bound@ > new_rank { self.bound@ } else { new_rank });
            lemma_root_weight_link(p0, s0, n as int, child as int, top as int, total);
            assert forall|i: int| 0 <= i < n implies self.repr@[(#[trigger] self.parent@[i]) as int]
                == self.repr@[i] by {
                assert(r0[p0[i] as int] == r0[i]);
            }
            assert forall|i: int| 0 <= i < n && (#[trigger] self.parent@[i]) != i implies self.rank@[i]
                < self.rank@[self.parent@[i] as int] && self.rank@[i] < self.rank@[self.repr@[i]] by {
                if i != child {
                    assert(p0[i] != i);
                    assert(k0[i] < k0[r0[i]]);
                }
            }
        }
    }
}

/// The representative that `union(a, b)` gives the merged class.
pub open spec fn merged_representative(s: DisjointSets, a: int, b: int) -> int {
    if s.weight(s@[a]) < s.weight(s@[b]) {
        s@[b]
    } else {
        s@[a]
    }
}

proof fn lemma_root_weight_prefix(
    pa: Seq<usize>,
    sa: Seq<usize>,
    pb: Seq<usize>,
    sb: Seq<usize>,
    upto: int,
)
    requires
        0 <= upto <= pa.len(),
        upto <= pb.len(),
        upto <= sa.len(),
        upto <= sb.len(),
        forall|k: int| 0 <= k < upto ==> pa[k] == pb[k] && sa[k] == sb[k],
    ensures
        root_weight(pa, sa, upto) == root_weight(pb, sb, upto),
    decreases upto,
{
    if upto > 0 {
        lemma_root_weight_prefix(pa, sa, pb, sb, upto - 1);
    }
}

} // verus!
