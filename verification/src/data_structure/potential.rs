//! Potentials over a partition: for each element a group element that
//! stands for its value relative to the representative of its class.

use super::partition::{class_size, dropped};
use crate::math::algebra::{lemma_cancel, lemma_inverse_of_inverse, lemma_inverse_of_op, Abel, Group};
use vstd::prelude::*;

verus! {

/// The weight that comes to be stored for the representative that goes below
/// the other when the classes of `x` and `y` are united under the relation
/// `w`: with `d = (w . p[x]) . inv(p[y])`, it is `d` where the representative
/// of `y` goes below that of `x`, and `inv(d)` where it is the other way
/// round.
pub open spec fn link_weight<T: Group>(
    s: Seq<int>,
    p: Seq<T::Set>,
    x: int,
    y: int,
    w: T::Set,
) -> T::Set {
    let d = T::op_spec(T::op_spec(w, p[x]), T::inv_spec(p[y]));
    if dropped(s, x, y) == s[y] {
        d
    } else {
        T::inv_spec(d)
    }
}

/// The potentials `p` over the partition `s` after the classes of `x` and `y`
/// are united under the relation `w`: the elements of the class whose
/// representative goes below the other get the weight that is stored for it
/// composed onto their potentials from the right.
pub open spec fn merged_potentials<T: Group>(
    s: Seq<int>,
    p: Seq<T::Set>,
    x: int,
    y: int,
    w: T::Set,
) -> Seq<T::Set> {
    if s[x] == s[y] {
        p
    } else {
        shifted::<T>(s, p, dropped(s, x, y), link_weight::<T>(s, p, x, y, w))
    }
}

/// The potentials `p` with `d` composed from the right onto those of the
/// class of `gone`.
pub open spec fn shifted<T: Group>(s: Seq<int>, p: Seq<T::Set>, gone: int, d: T::Set) -> Seq<
    T::Set,
> {
    Seq::new(
        p.len(),
        |i: int|
            if s[i] == gone {
                T::op_spec(p[i], d)
            } else {
                p[i]
            },
    )
}

/// A merge leaves the potential of every element relative to any other
/// element of its class as it was.
pub proof fn lemma_merge_keeps_relations<T: Group>(
    s: Seq<int>,
    p: Seq<T::Set>,
    x: int,
    y: int,
    w: T::Set,
    i: int,
    j: int,
)
    requires
        p.len() == s.len(),
        0 <= x < s.len(),
        0 <= y < s.len(),
        0 <= i < s.len(),
        0 <= j < s.len(),
        s[i] == s[j],
    ensures
        ({
            let q = merged_potentials::<T>(s, p, x, y, w);
            T::op_spec(q[j], T::inv_spec(q[i])) == T::op_spec(p[j], T::inv_spec(p[i]))
        }),
{
    let q = merged_potentials::<T>(s, p, x, y, w);
    if q[i] != p[i] || q[j] != p[j] {
        // both potentials are shifted by one element `e`
        let e = link_weight::<T>(s, p, x, y, w);
        assert(q[i] == T::op_spec(p[i], e) && q[j] == T::op_spec(p[j], e));
        lemma_inverse_of_op::<T>(p[i], e);
        T::associative(T::op_spec(p[j], e), T::inv_spec(e), T::inv_spec(p[i]));
        lemma_cancel::<T>(p[j], e);
    }
}

/// In an abelian group, a merge that unites two classes makes `w` the
/// potential of `y` relative to `x`.
pub proof fn lemma_merge_relates<T: Abel>(s: Seq<int>, p: Seq<T::Set>, x: int, y: int, w: T::Set)
    requires
        p.len() == s.len(),
        0 <= x < s.len(),
        0 <= y < s.len(),
        s[x] != s[y],
    ensures
        ({
            let q = merged_potentials::<T>(s, p, x, y, w);
            T::op_spec(q[y], T::inv_spec(q[x])) == w
        }),
{
    let u = T::op_spec(w, p[x]);
    let d = T::op_spec(u, T::inv_spec(p[y]));
    let q = merged_potentials::<T>(s, p, x, y, w);
    if class_size(s, s[x]) >= class_size(s, s[y]) {
        // q[y] == p[y] . d == d . p[y] == w . p[x], and q[x] == p[x]
        assert(q[y] == T::op_spec(p[y], d) && q[x] == p[x]);
        T::commutative(p[y], d);
        lemma_cancel::<T>(u, p[y]);
        lemma_cancel::<T>(w, p[x]);
    } else {
        // q[x] == p[x] . inv(d) and q[y] == p[y]
        assert(q[x] == T::op_spec(p[x], T::inv_spec(d)) && q[y] == p[y]);
        // inv(q[x]) == d . inv(p[x]) == w . inv(p[y])
        lemma_inverse_of_op::<T>(p[x], T::inv_spec(d));
        lemma_inverse_of_inverse::<T>(d);
        T::associative(u, T::inv_spec(p[y]), T::inv_spec(p[x]));
        T::commutative(T::inv_spec(p[y]), T::inv_spec(p[x]));
        T::associative(u, T::inv_spec(p[x]), T::inv_spec(p[y]));
        lemma_cancel::<T>(w, p[x]);
        assert(T::inv_spec(q[x]) == T::op_spec(w, T::inv_spec(p[y])));
        // p[y] . (w . inv(p[y])) == (w . inv(p[y])) . p[y] == w
        T::commutative(p[y], T::op_spec(w, T::inv_spec(p[y])));
        lemma_cancel::<T>(w, p[y]);
    }
}

} // verus!
