//! Bisection on the integers: between a point where a test holds and one
//! where it fails, the two are moved together by testing the point halfway.

use num::traits::FromPrimitive;
use vstd::prelude::*;

verus! {

/// The distance between `a` and `b`.
pub open spec fn gap(a: int, b: int) -> int {
    if a > b {
        a - b
    } else {
        b - a
    }
}

/// The point halfway between `ok` and `ng`; where there are two, the lower.
pub open spec fn midpoint(ok: int, ng: int) -> int {
    if ok > ng {
        ng + (ok - ng) / 2
    } else {
        ok + (ng - ok) / 2
    }
}

/// `m` lies between `a` and `b`, or is one of them.
pub open spec fn between(a: int, b: int, m: int) -> bool {
    (a <= m <= b) || (b <= m <= a)
}

/// `g` halved `k` times, rounding up each time.
pub open spec fn halved(g: int, k: nat) -> int
    decreases k,
{
    if k == 0 {
        g
    } else {
        halved((g + 1) / 2, (k - 1) as nat)
    }
}

/// The two points after one step from `ok` and `ng`: the point halfway
/// between them takes the place of `ok` where the test `holds` of it, and
/// that of `ng` where it does not.
pub open spec fn step(ok: int, ng: int, holds: bool) -> (int, int) {
    if holds {
        (midpoint(ok, ng), ng)
    } else {
        (ok, midpoint(ok, ng))
    }
}

/// The two points after one step from `ok` and `ng` for each of `answers`,
/// in order.
pub open spec fn bisected(ok: int, ng: int, answers: Seq<bool>) -> (int, int)
    decreases answers.len(),
{
    if answers.len() == 0 {
        (ok, ng)
    } else {
        let before = bisected(ok, ng, answers.drop_last());
        step(before.0, before.1, answers.last())
    }
}

/// The point that is tested after the first `k` of `answers`.
pub open spec fn tested(ok: int, ng: int, answers: Seq<bool>, k: int) -> int {
    midpoint(bisected(ok, ng, answers.take(k)).0, bisected(ok, ng, answers.take(k)).1)
}

/// The distance between the two points after the first `k` of `answers`.
pub open spec fn apart(ok: int, ng: int, answers: Seq<bool>, k: int) -> int {
    gap(bisected(ok, ng, answers.take(k)).0, bisected(ok, ng, answers.take(k)).1)
}

/// Bisection down to `threshold` ends with `answers` and not before: the two
/// points are more than `threshold` apart before each of them, and no more
/// than that after the last.
pub open spec fn stops_at(ok: int, ng: int, answers: Seq<bool>, threshold: int) -> bool {
    &&& forall|k: int| 0 <= k < answers.len() ==> #[trigger] apart(ok, ng, answers, k) > threshold
    &&& apart(ok, ng, answers, answers.len() as int) <= threshold
}

/// Each of `answers` is one that `check` may give of the point that is
/// tested after the answers before it.
pub open spec fn follows<F: FnMut(i64) -> bool>(
    check: F,
    ok: i64,
    ng: i64,
    answers: Seq<bool>,
) -> bool {
    forall|k: int|
        0 <= k < answers.len() ==> call_ensures(
            check,
            (tested(ok as int, ng as int, answers, k) as i64,),
            #[trigger] answers[k],
        )
}

/// `ok` and `ng` are what bisection can have made of `ok0` and `ng0`: both
/// lie between the two, on the sides they began on; `ok` is `ok0` or a point
/// where `check` answered `true`, and `ng` is `ng0` or a point where it
/// answered `false`.
pub open spec fn narrowed<F: FnMut(i64) -> bool>(
    check: F,
    ok0: i64,
    ng0: i64,
    ok: i64,
    ng: i64,
) -> bool {
    &&& between(ok0 as int, ng0 as int, ok as int)
    &&& between(ok as int, ng0 as int, ng as int)
    &&& ok == ok0 || call_ensures(check, (ok,), true)
    &&& ng == ng0 || call_ensures(check, (ng,), false)
}

/// Halving a smaller distance gives no greater one.
proof fn lemma_halved_monotone(a: int, b: int, k: nat)
    requires
        0 <= a <= b,
    ensures
        0 <= halved(a, k) <= halved(b, k),
    decreases k,
{
    if k > 0 {
        lemma_halved_monotone((a + 1) / 2, (b + 1) / 2, (k - 1) as nat);
    }
}

/// `FromPrimitive::from_usize` of `num` for `i64`: the number itself where
/// `i64` can hold it, and nothing where it cannot.
#[verifier::external_body]
fn from_usize(n: usize) -> (r: Option<i64>)
    ensures
        r == if n <= i64::MAX {
            Some(n as i64)
        } else {
            None::<i64>
        },
{
    FromPrimitive::from_usize(n)
}

/// The distance between `ok` and `ng`.
fn distance(ok: i64, ng: i64) -> (d: i64)
    requires
        gap(ok as int, ng as int) <= i64::MAX,
    ensures
        d == gap(ok as int, ng as int),
{
    if ok > ng {
        ok - ng
    } else {
        ng - ok
    }
}

/// The point halfway between `ok` and `ng`.
fn halfway(ok: i64, ng: i64) -> (mid: i64)
    requires
        gap(ok as int, ng as int) <= i64::MAX,
    ensures
        mid == midpoint(ok as int, ng as int),
        between(ok as int, ng as int, mid as int),
{
    let two = from_usize(2).unwrap();
    if ok > ng {
        ng + (ok - ng) / two
    } else {
        ok + (ng - ok) / two
    }
}

/// Bisects between `ok` and `ng` until they are no more than `threshold`
/// apart, and returns what `ok` has become.
///
/// As long as the two are further apart, the point halfway between them is
/// tested: where `check` holds of it, it replaces `ok`, and `ng` where it
/// does not.
pub fn binary_search_threshold<F>(ok: i64, ng: i64, mut check: F, threshold: i64) -> (found: i64) where
    F: FnMut(i64) -> bool,

    requires
        threshold >= 1,
        gap(ok as int, ng as int) <= i64::MAX,
        forall|m: i64|
            between(ok as int, ng as int, m as int) ==> #[trigger] call_requires(check, (m,)),
    ensures
        (exists|answers: Seq<bool>|
            #[trigger] follows(check, ok, ng, answers) && stops_at(
                ok as int,
                ng as int,
                answers,
                threshold as int,
            ) && found == bisected(ok as int, ng as int, answers).0),
        (exists|bound: i64|
            #[trigger] narrowed(check, ok, ng, found, bound) && gap(found as int, bound as int)
                <= threshold),
{
    let ghost f0 = check;
    let ghost mut answers: Seq<bool> = Seq::empty();
    let (ok0, ng0) = (ok, ng);
    let mut ok = ok;
    let mut ng = ng;
    while distance(ok, ng) > threshold
        invariant
            threshold >= 1,
            check == f0,
            gap(ok0 as int, ng0 as int) <= i64::MAX,
            forall|m: i64|
                between(ok0 as int, ng0 as int, m as int) ==> #[trigger] call_requires(f0, (m,)),
            narrowed(f0, ok0, ng0, ok, ng),
            follows(f0, ok0, ng0, answers),
            bisected(ok0 as int, ng0 as int, answers) == (ok as int, ng as int),
            forall|k: int|
                0 <= k < answers.len() ==> #[trigger] apart(ok0 as int, ng0 as int, answers, k)
                    > threshold,
        decreases gap(ok as int, ng as int),
    {
        let mid = halfway(ok, ng);
        assert(between(ok0 as int, ng0 as int, mid as int));
        let holds = check(mid);
        proof {
            assert(answers.take(answers.len() as int) =~= answers);
            lemma_one_more(f0, ok0, ng0, answers, holds);
            assert forall|k: int| 0 <= k < answers.len() + 1 implies #[trigger] apart(
                ok0 as int,
                ng0 as int,
                answers.push(holds),
                k,
            ) > threshold by {
                if k < answers.len() {
                    assert(answers.push(holds).take(k) =~= answers.take(k));
                    assert(apart(ok0 as int, ng0 as int, answers, k) > threshold);
                } else {
                    assert(answers.push(holds).take(k) =~= answers);
                }
            }
            answers = answers.push(holds);
        }
        if holds {
            ok = mid;
        } else {
            ng = mid;
        }
    }
    proof {
        assert(answers.take(answers.len() as int) =~= answers);
        assert(stops_at(ok0 as int, ng0 as int, answers, threshold as int));
        assert(narrowed(f0, ok0, ng0, ok, ng));
    }
    ok
}

/// Bisects between `ok` and `ng` `trial` times, and returns what `ok` has
/// become.
///
/// Each time the point halfway between the two is tested: where `check`
/// holds of it, it replaces `ok`, and `ng` where it does not.
pub fn binary_search_trial<F>(ok: i64, ng: i64, mut check: F, trial: usize) -> (found: i64) where
    F: FnMut(i64) -> bool,

    requires
        gap(ok as int, ng as int) <= i64::MAX,
        forall|m: i64|
            between(ok as int, ng as int, m as int) ==> #[trigger] call_requires(check, (m,)),
    ensures
        (exists|answers: Seq<bool>|
            #[trigger] follows(check, ok, ng, answers) && answers.len() == trial && found
                == bisected(ok as int, ng as int, answers).0),
        (exists|bound: i64|
            #[trigger] narrowed(check, ok, ng, found, bound) && gap(found as int, bound as int)
                <= halved(gap(ok as int, ng as int), trial as nat)),
{
    let ghost f0 = check;
    let ghost mut answers: Seq<bool> = Seq::empty();
    let (ok0, ng0) = (ok, ng);
    let mut ok = ok;
    let mut ng = ng;
    let mut done: usize = 0;
    while done < trial
        invariant
            done <= trial,
            check == f0,
            gap(ok0 as int, ng0 as int) <= i64::MAX,
            forall|m: i64|
                between(ok0 as int, ng0 as int, m as int) ==> #[trigger] call_requires(f0, (m,)),
            narrowed(f0, ok0, ng0, ok, ng),
            follows(f0, ok0, ng0, answers),
            answers.len() == done,
            bisected(ok0 as int, ng0 as int, answers) == (ok as int, ng as int),
            halved(gap(ok as int, ng as int), (trial - done) as nat) <= halved(
                gap(ok0 as int, ng0 as int),
                trial as nat,
            ),
        decreases trial - done,
    {
        let ghost before = gap(ok as int, ng as int);
        let mid = halfway(ok, ng);
        assert(between(ok0 as int, ng0 as int, mid as int));
        let holds = check(mid);
        proof {
            assert(answers.take(answers.len() as int) =~= answers);
            lemma_one_more(f0, ok0, ng0, answers, holds);
            answers = answers.push(holds);
        }
        if holds {
            ok = mid;
        } else {
            ng = mid;
        }
        proof {
            lemma_halved_monotone(
                gap(ok as int, ng as int),
                (before + 1) / 2,
                (trial - done - 1) as nat,
            );
        }
        done += 1;
    }
    assert(narrowed(f0, ok0, ng0, ok, ng));
    ok
}

/// One more answer, given of the point that is tested next, follows too.
proof fn lemma_one_more<F: FnMut(i64) -> bool>(
    check: F,
    ok: i64,
    ng: i64,
    answers: Seq<bool>,
    holds: bool,
)
    requires
        follows(check, ok, ng, answers),
        call_ensures(
            check,
            (tested(ok as int, ng as int, answers, answers.len() as int) as i64,),
            holds,
        ),
    ensures
        follows(check, ok, ng, answers.push(holds)),
        bisected(ok as int, ng as int, answers.push(holds)) == step(
            bisected(ok as int, ng as int, answers).0,
            bisected(ok as int, ng as int, answers).1,
            holds,
        ),
{
    let more = answers.push(holds);
    assert(more.drop_last() =~= answers);
    assert(answers.take(answers.len() as int) =~= answers);
    assert forall|k: int| 0 <= k < more.len() implies call_ensures(
        check,
        (tested(ok as int, ng as int, more, k) as i64,),
        #[trigger] more[k],
    ) by {
        if k < answers.len() {
            assert(more.take(k) =~= answers.take(k));
        } else {
            assert(more.take(k) =~= answers);
        }
    }
}

} // verus!
