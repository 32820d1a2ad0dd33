//! Disjoint-set forests: a plain one, and one that also keeps a potential
//! for every element relative to the representative of its class.
//!
//! Both are modelled by the partition that they stand for. Path compression
//! changes the forest and not the partition, so a lookup leaves the model
//! untouched.

use super::partition::{
    class_size, lemma_class_size_disjoint, lemma_class_size_relabel, lemma_class_size_singletons,
    dropped, kept, merged, relabel, singletons,
};
use super::potential::{link_weight, merged_potentials, shifted};
use crate::math::algebra::Group;
use vstd::prelude::*;

verus! {

/// A disjoint-set forest over the elements `0..n`, with union by size and
/// path compression.
pub struct UnionFind {
    par: Vec<usize>,
    size: Vec<usize>,
    /// The representative of each element.
    roots: Ghost<Seq<int>>,
    /// For each element a bound on the number of parent links above it.
    depth: Ghost<Seq<nat>>,
}

impl View for UnionFind {
    type V = Seq<int>;

    /// The representative of each element's class.
    closed spec fn view(&self) -> Seq<int> {
        self.roots@
    }
}

impl UnionFind {
    /// The forest is well formed: the parent links lead every element to the
    /// representative that the model names for it, and every representative
    /// stores the size of its class.
    pub closed spec fn wf(&self) -> bool {
        let n = self.par.len();
        &&& self.size.len() == n
        &&& self.roots@.len() == n
        &&& self.depth@.len() == n
        &&& forall|i: int| 0 <= i < n ==> 0 <= #[trigger] self.par[i] < n
        &&& forall|i: int| 0 <= i < n ==> 0 <= #[trigger] self.roots@[i] < n
        &&& forall|i: int|
            0 <= i < n ==> self.par[#[trigger] self.roots@[i]] == self.roots@[i]
        &&& forall|i: int|
            0 <= i < n ==> self.roots@[#[trigger] self.par[i] as int] == self.roots@[i]
        &&& forall|i: int| 0 <= i < n && #[trigger] self.par[i] == i ==> self.roots@[i] == i
        &&& forall|i: int| 0 <= i < n && #[trigger] self.par[i] == i ==> self.depth@[i] == 0
        &&& forall|i: int|
            0 <= i < n && #[trigger] self.par[i] != i ==> self.depth@[self.par[i] as int]
                < self.depth@[i]
        &&& forall|i: int|
            0 <= i < n && #[trigger] self.par[i] == i ==> self.size[i] == class_size(
                self.roots@,
                i,
            )
    }

    /// The number of elements.
    pub open spec fn len(&self) -> nat {
        self@.len()
    }

    /// A bound on the number of parent links between `x` and its
    /// representative: the measure by which a lookup terminates.
    pub closed spec fn height(&self, x: int) -> nat {
        self.depth@[x]
    }

    /// The parent of `i` in the forest. A representative is its own parent.
    pub closed spec fn parent(&self, i: int) -> int {
        self.par[i] as int
    }

    /// Path compression leads from `self` to `after`: every element either
    /// kept its parent, or hangs directly below its representative in
    /// `after`.
    pub open spec fn compressed_to(&self, after: &Self) -> bool {
        forall|i: int|
            0 <= i < self.len() ==> #[trigger] after.parent(i) == self.parent(i) || after.parent(i)
                == after@[i]
    }

    /// How the forest and its model hang together: the representative of an
    /// element is the one element above it that is its own parent. Parent and
    /// representative of every element are elements; a representative is its
    /// own parent; an element and its parent have one representative; and an
    /// element that is its own parent represents itself and is of height
    /// zero, while any other lies higher than its parent.
    pub proof fn lemma_forest(&self)
        requires
            self.wf(),
        ensures
            forall|i: int| 0 <= i < self.len() ==> 0 <= #[trigger] self@[i] < self.len(),
            forall|i: int| 0 <= i < self.len() ==> 0 <= #[trigger] self.parent(i) < self.len(),
            forall|i: int| 0 <= i < self.len() ==> self.parent(#[trigger] self@[i]) == self@[i],
            forall|i: int| 0 <= i < self.len() ==> self@[#[trigger] self.parent(i)] == self@[i],
            forall|i: int|
                0 <= i < self.len() && #[trigger] self.parent(i) == i ==> self@[i] == i
                    && self.height(i) == 0,
            forall|i: int|
                0 <= i < self.len() && #[trigger] self.parent(i) != i ==> self.height(
                    self.parent(i),
                ) < self.height(i),
    {
    }

    /// A forest of `n` classes of one element each.
    pub fn new(n: usize) -> (uf: Self)
        ensures
            uf.wf(),
            uf@ == singletons(n as nat),
            forall|i: int| 0 <= i < n ==> class_size(uf@, i) == 1,
    {
        let mut par: Vec<usize> = Vec::new();
        let mut size: Vec<usize> = Vec::new();
        let mut i: usize = 0;
        while i < n
            invariant
                i <= n,
                par.len() == i,
                size.len() == i,
                forall|j: int| 0 <= j < i ==> par[j] == j,
                forall|j: int| 0 <= j < i ==> size[j] == 1,
            decreases n - i,
        {
            par.push(i);
            size.push(1);
            i += 1;
        }
        let uf = UnionFind {
            par,
            size,
            roots: Ghost(singletons(n as nat)),
            depth: Ghost(Seq::new(n as nat, |i: int| 0nat)),
        };
        proof {
            assert forall|j: int| 0 <= j < n implies class_size(singletons(n as nat), j) == 1 by {
                lemma_class_size_singletons(n as nat, j);
            }
        }
        uf
    }

    /// The representative of the class of `x`. The path from `x` to it is
    /// compressed: the elements on it come to hang directly below the
    /// representative. The partition stays as it is.
    pub fn find(&mut self, x: usize) -> (r: usize)
        requires
            old(self).wf(),
            x < old(self).len(),
        ensures
            final(self).wf(),
            final(self)@ == old(self)@,
            r == old(self)@[x as int],
            final(self).parent(x as int) == r,
            old(self).compressed_to(final(self)),
        decreases old(self).height(x as int),
    {
        let p = self.par[x];
        if p == x {
            return x;
        }
        let r = self.find(p);
        let ghost mid = *self;
        proof {
            // `x` is below its representative, so it is no root.
            assert(self.par[x as int] != x);
        }
        self.par.set(x, r);
        proof {
            assert forall|i: int| 0 <= i < self.len() implies #[trigger] self.parent(i) == old(
                self,
            ).parent(i) || self.parent(i) == self@[i] by {
                if i != x {
                    assert(self.parent(i) == mid.parent(i));
                }
            }
        }
        r
    }

    /// Unites the classes of `x` and `y`: the representative of the smaller
    /// class gets the other as its parent, and that of `y` where the two
    /// classes are of one size. Where `x` and `y` are in one class already,
    /// the partition stays as it is.
    pub fn merge(&mut self, x: usize, y: usize)
        requires
            old(self).wf(),
            x < old(self).len(),
            y < old(self).len(),
        ensures
            final(self).wf(),
            final(self)@ == merged(old(self)@, x as int, y as int),
            final(self)@[x as int] == final(self)@[y as int],
            old(self)@[x as int] != old(self)@[y as int] ==> final(self).parent(
                dropped(old(self)@, x as int, y as int),
            ) == kept(old(self)@, x as int, y as int),
    {
        let x = self.find(x);
        let y = self.find(y);
        if x == y {
            return ;
        }
        let ghost s = self.roots@;
        let ghost d = self.depth@;
        proof {
            lemma_class_size_disjoint(s, x as int, y as int);
        }
        if self.size[x] >= self.size[y] {
            self.size.set(x, self.size[x] + self.size[y]);
            self.par.set(y, x);
            proof {
                self.roots = Ghost(relabel(s, y as int, x as int));
                self.depth = Ghost(
                    Seq::new(
                        d.len(),
                        |i: int|
                            if s[i] == y {
                                d[i] + 1
                            } else {
                                d[i]
                            },
                    ),
                );
                assert forall|i: int| 0 <= i < s.len() && #[trigger] self.par[i] == i implies self.size[i]
                    == class_size(self.roots@, i) by {
                    lemma_class_size_relabel(s, y as int, x as int, i);
                }
            }
        } else {
            self.size.set(y, self.size[y] + self.size[x]);
            self.par.set(x, y);
            proof {
                self.roots = Ghost(relabel(s, x as int, y as int));
                self.depth = Ghost(
                    Seq::new(
                        d.len(),
                        |i: int|
                            if s[i] == x {
                                d[i] + 1
                            } else {
                                d[i]
                            },
                    ),
                );
                assert forall|i: int| 0 <= i < s.len() && #[trigger] self.par[i] == i implies self.size[i]
                    == class_size(self.roots@, i) by {
                    lemma_class_size_relabel(s, x as int, y as int, i);
                }
            }
        }
    }

    /// The number of elements in the class of `x`.
    pub fn size(&mut self, x: usize) -> (k: usize)
        requires
            old(self).wf(),
            x < old(self).len(),
        ensures
            final(self).wf(),
            final(self)@ == old(self)@,
            k == class_size(old(self)@, old(self)@[x as int]),
    {
        let x = self.find(x);
        self.size[x]
    }

    /// Whether `x` and `y` are in one class.
    pub fn same(&mut self, x: usize, y: usize) -> (b: bool)
        requires
            old(self).wf(),
            x < old(self).len(),
            y < old(self).len(),
        ensures
            final(self).wf(),
            final(self)@ == old(self)@,
            b == (old(self)@[x as int] == old(self)@[y as int]),
            x == y ==> b,
    {
        self.find(x) == self.find(y)
    }
}

/// A disjoint-set forest over the elements `0..n` that also keeps, for every
/// element, a potential in the group `T` relative to the representative of
/// its class.
pub struct PotentializedUnionFind<T: Group> where T::Set: Copy {
    par: Vec<usize>,
    size: Vec<usize>,
    diff_weight: Vec<T::Set>,
    /// The representative of each element.
    roots: Ghost<Seq<int>>,
    /// For each element a bound on the number of parent links above it.
    depth: Ghost<Seq<nat>>,
    /// The potential of each element relative to its representative.
    pots: Ghost<Seq<T::Set>>,
}

impl<T: Group> View for PotentializedUnionFind<T> where T::Set: Copy {
    type V = Seq<int>;

    /// The representative of each element's class.
    closed spec fn view(&self) -> Seq<int> {
        self.roots@
    }
}

impl<T: Group> PotentializedUnionFind<T> where T::Set: Copy {
    /// The potential of each element relative to the representative of its
    /// class: the stored weights composed along the parent links, the
    /// element's own first.
    pub closed spec fn potentials(&self) -> Seq<T::Set> {
        self.pots@
    }

    /// The forest is well formed: the parent links lead every element to the
    /// representative that the model names for it, the stored weights along
    /// them compose to the potential that the model names, and every
    /// representative stores the size of its class.
    pub closed spec fn wf(&self) -> bool {
        let n = self.par.len();
        &&& self.size.len() == n
        &&& self.diff_weight.len() == n
        &&& self.roots@.len() == n
        &&& self.depth@.len() == n
        &&& self.pots@.len() == n
        &&& forall|i: int| 0 <= i < n ==> 0 <= #[trigger] self.par[i] < n
        &&& forall|i: int| 0 <= i < n ==> 0 <= #[trigger] self.roots@[i] < n
        &&& forall|i: int|
            0 <= i < n ==> self.par[#[trigger] self.roots@[i]] == self.roots@[i]
        &&& forall|i: int|
            0 <= i < n ==> self.roots@[#[trigger] self.par[i] as int] == self.roots@[i]
        &&& forall|i: int| 0 <= i < n && #[trigger] self.par[i] == i ==> self.roots@[i] == i
        &&& forall|i: int| 0 <= i < n && #[trigger] self.par[i] == i ==> self.depth@[i] == 0
        &&& forall|i: int|
            0 <= i < n && #[trigger] self.par[i] != i ==> self.depth@[self.par[i] as int]
                < self.depth@[i]
        &&& forall|i: int|
            0 <= i < n && #[trigger] self.par[i] == i ==> self.size[i] == class_size(
                self.roots@,
                i,
            )
        &&& forall|i: int|
            0 <= i < n && #[trigger] self.par[i] == i ==> self.diff_weight[i] == T::id_spec()
                && self.pots@[i] == T::id_spec()
        &&& forall|i: int|
            0 <= i < n && #[trigger] self.par[i] != i ==> self.pots@[i] == T::op_spec(
                self.diff_weight[i],
                self.pots@[self.par[i] as int],
            )
    }

    /// The number of elements.
    pub open spec fn len(&self) -> nat {
        self@.len()
    }

    /// A bound on the number of parent links between `x` and its
    /// representative: the measure by which a lookup terminates.
    pub closed spec fn height(&self, x: int) -> nat {
        self.depth@[x]
    }

    /// The parent of `i` in the forest. A representative is its own parent.
    pub closed spec fn parent(&self, i: int) -> int {
        self.par[i] as int
    }

    /// The weight that is stored for `i`: its potential relative to its
    /// parent.
    pub closed spec fn stored(&self, i: int) -> T::Set {
        self.diff_weight[i]
    }

    /// `x` hangs directly below its representative, or is it, and the weight
    /// stored for it is its potential.
    pub open spec fn settled(&self, x: int) -> bool {
        &&& self.parent(x) == self@[x]
        &&& self.stored(x) == self.potentials()[x]
    }

    /// Path compression leads from `self` to `after`: every element either
    /// kept its parent and its stored weight, or is settled in `after`.
    pub open spec fn compressed_to(&self, after: &Self) -> bool {
        forall|i: int|
            0 <= i < self.len() ==> (#[trigger] after.parent(i) == self.parent(i) && after.stored(i)
                == self.stored(i)) || after.settled(i)
    }

    /// How the forest and its model hang together: the representative of an
    /// element is the one element above it that is its own parent, and its
    /// potential is what the stored weights from it up to there compose to,
    /// its own first. Parent and representative of every element are
    /// elements; a representative is its own parent; an element and its
    /// parent have one representative; an element that is its own parent
    /// represents itself, is of height zero and has the identity as stored
    /// weight and as potential, while any other lies higher than its parent
    /// and has as potential its stored weight composed with the potential of
    /// its parent.
    pub proof fn lemma_forest(&self)
        requires
            self.wf(),
        ensures
            self.potentials().len() == self.len(),
            forall|i: int| 0 <= i < self.len() ==> 0 <= #[trigger] self@[i] < self.len(),
            forall|i: int| 0 <= i < self.len() ==> 0 <= #[trigger] self.parent(i) < self.len(),
            forall|i: int| 0 <= i < self.len() ==> self.parent(#[trigger] self@[i]) == self@[i],
            forall|i: int| 0 <= i < self.len() ==> self@[#[trigger] self.parent(i)] == self@[i],
            forall|i: int|
                0 <= i < self.len() && #[trigger] self.parent(i) == i ==> self@[i] == i
                    && self.height(i) == 0 && self.stored(i) == T::id_spec()
                    && self.potentials()[i] == T::id_spec(),
            forall|i: int|
                0 <= i < self.len() && #[trigger] self.parent(i) != i ==> self.height(
                    self.parent(i),
                ) < self.height(i) && self.potentials()[i] == T::op_spec(
                    self.stored(i),
                    self.potentials()[self.parent(i)],
                ),
    {
    }

    /// A forest of `n` classes of one element each, every potential the
    /// identity.
    pub fn new(n: usize) -> (uf: Self)
        ensures
            uf.wf(),
            uf@ == singletons(n as nat),
            uf.potentials() == Seq::new(n as nat, |i: int| T::id_spec()),
            forall|i: int| 0 <= i < n ==> class_size(uf@, i) == 1,
    {
        let e = T::id();
        let mut par: Vec<usize> = Vec::new();
        let mut size: Vec<usize> = Vec::new();
        let mut diff_weight: Vec<T::Set> = Vec::new();
        let mut i: usize = 0;
        while i < n
            invariant
                i <= n,
                e == T::id_spec(),
                par.len() == i,
                size.len() == i,
                diff_weight.len() == i,
                forall|j: int| 0 <= j < i ==> par[j] == j,
                forall|j: int| 0 <= j < i ==> size[j] == 1,
                forall|j: int| 0 <= j < i ==> diff_weight[j] == e,
            decreases n - i,
        {
            par.push(i);
            size.push(1);
            diff_weight.push(e);
            i += 1;
        }
        let uf = PotentializedUnionFind {
            par,
            size,
            diff_weight,
            roots: Ghost(singletons(n as nat)),
            depth: Ghost(Seq::new(n as nat, |i: int| 0nat)),
            pots: Ghost(Seq::new(n as nat, |i: int| T::id_spec())),
        };
        proof {
            assert forall|j: int| 0 <= j < n implies class_size(singletons(n as nat), j) == 1 by {
                lemma_class_size_singletons(n as nat, j);
            }
        }
        uf
    }

    /// The representative of the class of `x`. The path from `x` to it is
    /// compressed: the elements on it come to hang directly below the
    /// representative, each with its potential as stored weight. The
    /// partition and the potentials stay as they are.
    pub fn find(&mut self, x: usize) -> (r: usize)
        requires
            old(self).wf(),
            x < old(self).len(),
        ensures
            final(self).wf(),
            final(self)@ == old(self)@,
            final(self).potentials() == old(self).potentials(),
            r == old(self)@[x as int],
            final(self).settled(x as int),
            old(self).compressed_to(final(self)),
        decreases old(self).height(x as int),
    {
        let p = self.par[x];
        if p == x {
            return x;
        }
        let r = self.find(p);
        let ghost mid = *self;
        proof {
            // `x` is below its representative, so it is no root.
            assert(self.par[x as int] != x);
            T::identity(self.pots@[x as int]);
            // its parent is the old one, which is settled now, or `x` itself
            // was settled on the way
            assert(mid.parent(x as int) == p || mid.settled(x as int));
            assert(mid.settled(p as int));
        }
        let q = self.par[x];
        let w = T::op(self.diff_weight[x], self.diff_weight[q]);
        self.diff_weight.set(x, w);
        self.par.set(x, r);
        proof {
            assert forall|i: int| 0 <= i < self.len() implies (#[trigger] self.parent(i) == old(
                self,
            ).parent(i) && self.stored(i) == old(self).stored(i)) || self.settled(i) by {
                if i != x {
                    assert(self.parent(i) == mid.parent(i));
                }
            }
        }
        r
    }

    /// The potential of `x` relative to the representative of its class.
    pub fn weight(&mut self, x: usize) -> (w: T::Set)
        requires
            old(self).wf(),
            x < old(self).len(),
        ensures
            final(self).wf(),
            final(self)@ == old(self)@,
            final(self).potentials() == old(self).potentials(),
            w == old(self).potentials()[x as int],
    {
        self.find(x);
        self.diff_weight[x]
    }

    /// Unites the classes of `x` and `y` so that the potential of `y` relates
    /// to that of `x` by `w`, and tells whether it did: the representative of
    /// the smaller class gets the other as its parent, and that of `y` where
    /// the two classes are of one size. Where `x` and `y` are in one class
    /// already, partition and potentials stay as they are, whether or not
    /// `w` agrees with them.
    pub fn merge(&mut self, x: usize, y: usize, w: T::Set) -> (united: bool)
        requires
            old(self).wf(),
            x < old(self).len(),
            y < old(self).len(),
        ensures
            final(self).wf(),
            united == (old(self)@[x as int] != old(self)@[y as int]),
            final(self)@ == merged(old(self)@, x as int, y as int),
            final(self).potentials() == merged_potentials::<T>(
                old(self)@,
                old(self).potentials(),
                x as int,
                y as int,
                w,
            ),
            final(self)@[x as int] == final(self)@[y as int],
            united ==> final(self).parent(dropped(old(self)@, x as int, y as int)) == kept(
                old(self)@,
                x as int,
                y as int,
            ) && final(self).stored(dropped(old(self)@, x as int, y as int)) == link_weight::<T>(
                old(self)@,
                old(self).potentials(),
                x as int,
                y as int,
                w,
            ),
    {
        let w = T::op(w, self.weight(x));
        let w = T::op(w, T::inv(self.weight(y)));
        let x = self.find(x);
        let y = self.find(y);
        if x == y {
            return false;
        }
        let ghost s = self.roots@;
        let ghost d = self.depth@;
        let ghost p = self.pots@;
        let ghost par0 = self.par@;
        let ghost dw0 = self.diff_weight@;
        proof {
            lemma_class_size_disjoint(s, x as int, y as int);
        }
        let (keep, gone, w) = if self.size[x] < self.size[y] {
            (y, x, T::inv(w))
        } else {
            (x, y, w)
        };
        self.size.set(keep, self.size[keep] + self.size[gone]);
        self.par.set(gone, keep);
        self.diff_weight.set(gone, w);
        proof {
            self.roots = Ghost(relabel(s, gone as int, keep as int));
            self.depth = Ghost(
                Seq::new(
                    d.len(),
                    |i: int|
                        if s[i] == gone {
                            d[i] + 1
                        } else {
                            d[i]
                        },
                ),
            );
            self.pots = Ghost(shifted::<T>(s, p, gone as int, w));
            assert forall|i: int| 0 <= i < s.len() && #[trigger] self.par[i] == i implies self.size[i]
                == class_size(self.roots@, i) by {
                lemma_class_size_relabel(s, gone as int, keep as int, i);
            }
            assert forall|i: int| 0 <= i < s.len() && #[trigger] self.par[i] != i implies self.pots@[i]
                == T::op_spec(self.diff_weight[i], self.pots@[self.par[i] as int]) by {
                if i == gone {
                    T::identity(w);
                } else {
                    assert(par0[i] != i);
                    assert(p[i] == T::op_spec(dw0[i], p[par0[i] as int]));
                    if s[i] == gone {
                        T::associative(dw0[i], p[par0[i] as int], w);
                    }
                }
            }
        }
        true
    }

    /// The potential of `y` relative to `x`, where the two are in one class.
    pub fn diff(&mut self, x: usize, y: usize) -> (d: Option<T::Set>)
        requires
            old(self).wf(),
            x < old(self).len(),
            y < old(self).len(),
        ensures
            final(self).wf(),
            final(self)@ == old(self)@,
            final(self).potentials() == old(self).potentials(),
            d == if old(self)@[x as int] == old(self)@[y as int] {
                Some(
                    T::op_spec(
                        old(self).potentials()[y as int],
                        T::inv_spec(old(self).potentials()[x as int]),
                    ),
                )
            } else {
                None
            },
            x == y ==> d == Some(T::id_spec()),
    {
        proof {
            T::inverse(self.pots@[x as int]);
        }
        if self.same(x, y) {
            Some(T::op(self.weight(y), T::inv(self.weight(x))))
        } else {
            None
        }
    }

    /// The number of elements in the class of `x`.
    pub fn size(&mut self, x: usize) -> (k: usize)
        requires
            old(self).wf(),
            x < old(self).len(),
        ensures
            final(self).wf(),
            final(self)@ == old(self)@,
            final(self).potentials() == old(self).potentials(),
            k == class_size(old(self)@, old(self)@[x as int]),
    {
        let x = self.find(x);
        self.size[x]
    }

    /// Whether `x` and `y` are in one class.
    pub fn same(&mut self, x: usize, y: usize) -> (b: bool)
        requires
            old(self).wf(),
            x < old(self).len(),
            y < old(self).len(),
        ensures
            final(self).wf(),
            final(self)@ == old(self)@,
            final(self).potentials() == old(self).potentials(),
            b == (old(self)@[x as int] == old(self)@[y as int]),
            x == y ==> b,
    {
        self.find(x) == self.find(y)
    }
}

} // verus!
