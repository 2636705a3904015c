//! The escape time of an orbit: how many steps it takes until it leaves a
//! bounded region, if it does so within a limit.
//!
//! The numbers are the caller's: the orbit is driven by a `step` function
//! and judged by an `escaped` test, so that the count is the same whatever
//! arithmetic stands behind them.

use vstd::prelude::*;

verus! {

/// `orbit` starts at `start`, and each of its points is what `step` may
/// give for the point before it.
pub open spec fn is_orbit<Z, S: Fn(Z) -> Z>(step: S, start: Z, orbit: Seq<Z>) -> bool {
    &&& orbit.len() > 0
    &&& orbit[0] == start
    &&& forall|k: int| 0 < k < orbit.len() ==> step.ensures((orbit[k - 1],), #[trigger] orbit[k])
}

/// The first `count` points of `orbit` after its start may all be judged
/// not to have escaped.
pub open spec fn stays_bounded<Z, E: Fn(&Z) -> bool>(
    escaped: E,
    orbit: Seq<Z>,
    count: int,
) -> bool {
    forall|k: int| 0 < k <= count ==> escaped.ensures((&#[trigger] orbit[k],), false)
}

/// `result` is an escape time of the orbit of `start`: `Some(i)` where the
/// points after steps `1` to `i` stay bounded and the point after step
/// `i + 1` has escaped, with `i` below `limit`; `None` where the points
/// after steps `1` to `limit` all stay bounded.
pub open spec fn is_escape_time<Z, S: Fn(Z) -> Z, E: Fn(&Z) -> bool>(
    step: S,
    escaped: E,
    start: Z,
    limit: u64,
    result: Option<u64>,
) -> bool {
    match result {
        Some(i) => {
            &&& i < limit
            &&& exists|orbit: Seq<Z>|
                {
                    &&& orbit.len() == i + 2
                    &&& #[trigger] is_orbit(step, start, orbit)
                    &&& stays_bounded(escaped, orbit, i as int)
                    &&& escaped.ensures((&orbit[i + 1],), true)
                }
        },
        None => exists|orbit: Seq<Z>|
            {
                &&& orbit.len() == limit + 1
                &&& #[trigger] is_orbit(step, start, orbit)
                &&& stays_bounded(escaped, orbit, limit as int)
            },
    }
}

/// Follows the orbit of `start` under `step` for at most `limit` steps and
/// tells after which step it escaped: after each step the new point is put
/// to `escaped`, and the index of the first step whose point has escaped is
/// returned, counted from 0. `None` says that the orbit stayed bounded for
/// `limit` steps; with a limit of 0 no step is taken.
///
/// `step` must accept every point that the orbit can reach, and `escaped`
/// every such point after the start.
pub fn escape_time<Z, S: Fn(Z) -> Z, E: Fn(&Z) -> bool>(
    start: Z,
    limit: u64,
    step: S,
    escaped: E,
) -> (result: Option<u64>)
    requires
        forall|orbit: Seq<Z>| #[trigger]
            is_orbit(step, start, orbit) ==> step.requires((orbit.last(),)),
        forall|orbit: Seq<Z>| #[trigger]
            is_orbit(step, start, orbit) && orbit.len() > 1 ==> escaped.requires((&orbit.last(),)),
    ensures
        is_escape_time(step, escaped, start, limit, result),
{
    let ghost mut orbit: Seq<Z> = seq![start];
    let mut z = start;
    let mut i: u64 = 0;
    while i < limit
        invariant
            i <= limit,
            forall|orbit: Seq<Z>| #[trigger]
                is_orbit(step, start, orbit) ==> step.requires((orbit.last(),)),
            forall|orbit: Seq<Z>| #[trigger]
                is_orbit(step, start, orbit) && orbit.len() > 1 ==> escaped.requires(
                    (&orbit.last(),),
                ),
            orbit.len() == i + 1,
            is_orbit(step, start, orbit),
            orbit[i as int] == z,
            stays_bounded(escaped, orbit, i as int),
        decreases limit - i,
    {
        let ghost before = orbit;
        assert(before.last() == z);
        z = step(z);
        proof {
            orbit = orbit.push(z);
            assert forall|k: int| 0 < k < orbit.len() implies step.ensures(
                (orbit[k - 1],),
                #[trigger] orbit[k],
            ) by {
                if k < before.len() {
                    assert(orbit[k] == before[k]);
                    assert(orbit[k - 1] == before[k - 1]);
                }
            }
            assert forall|k: int| 0 < k <= i implies escaped.ensures(
                (&#[trigger] orbit[k],),
                false,
            ) by {
                assert(orbit[k] == before[k]);
            }
            assert(is_orbit(step, start, orbit));
            assert(orbit.last() == z);
        }
        if escaped(&z) {
            return Some(i);
        }
        i += 1;
    }
    None
}

/// The point that `start` has come to after `steps` steps of `f`.
pub open spec fn iterate<Z>(f: spec_fn(Z) -> Z, start: Z, steps: nat) -> Z
    decreases steps,
{
    if steps == 0 {
        start
    } else {
        f(iterate(f, start, (steps - 1) as nat))
    }
}

/// `result` names the first step of `f` from `start`, among the first
/// `limit`, after which `far` holds: `Some(i)` where it is step `i`, counted
/// from 0, and `None` where there is no such step.
pub open spec fn is_first_escape<Z>(
    f: spec_fn(Z) -> Z,
    far: spec_fn(Z) -> bool,
    start: Z,
    limit: u64,
    result: Option<u64>,
) -> bool {
    match result {
        Some(i) => {
            &&& i < limit
            &&& far(iterate(f, start, (i + 1) as nat))
            &&& forall|k: nat| k < i ==> !far(#[trigger] iterate(f, start, k + 1))
        },
        None => forall|k: nat| k < limit ==> !far(#[trigger] iterate(f, start, k + 1)),
    }
}

/// Where `step` computes `f`, an orbit holds the iterates of `f`.
proof fn lemma_orbit_iterates<Z, S: Fn(Z) -> Z>(
    step: S,
    f: spec_fn(Z) -> Z,
    start: Z,
    orbit: Seq<Z>,
    k: nat,
)
    requires
        is_orbit(step, start, orbit),
        forall|z: Z, next: Z| #[trigger] step.ensures((z,), next) ==> next == f(z),
        k < orbit.len(),
    ensures
        orbit[k as int] == iterate(f, start, k),
    decreases k,
{
    if k > 0 {
        lemma_orbit_iterates(step, f, start, orbit, (k - 1) as nat);
        assert(step.ensures((orbit[k - 1],), orbit[k as int]));
    }
}

/// With a `step` that computes the function `f` and an `escaped` that
/// decides the predicate `far`, the escape time is fixed: it names the first
/// step after which `far` holds.
pub proof fn lemma_escape_time_is_first_escape<Z, S: Fn(Z) -> Z, E: Fn(&Z) -> bool>(
    step: S,
    escaped: E,
    f: spec_fn(Z) -> Z,
    far: spec_fn(Z) -> bool,
    start: Z,
    limit: u64,
    result: Option<u64>,
)
    requires
        is_escape_time(step, escaped, start, limit, result),
        forall|z: Z, next: Z| #[trigger] step.ensures((z,), next) ==> next == f(z),
        forall|z: Z, verdict: bool| #[trigger]
            escaped.ensures((&z,), verdict) ==> verdict == far(z),
    ensures
        is_first_escape(f, far, start, limit, result),
{
    match result {
        Some(i) => {
            let orbit = choose|orbit: Seq<Z>|
                {
                    &&& orbit.len() == i + 2
                    &&& #[trigger] is_orbit(step, start, orbit)
                    &&& stays_bounded(escaped, orbit, i as int)
                    &&& escaped.ensures((&orbit[i + 1],), true)
                };
            lemma_orbit_iterates(step, f, start, orbit, (i + 1) as nat);
            assert forall|k: nat| k < i implies !far(#[trigger] iterate(f, start, k + 1)) by {
                lemma_orbit_iterates(step, f, start, orbit, k + 1);
                assert(escaped.ensures((&orbit[k as int + 1],), false));
            }
        },
        None => {
            let orbit = choose|orbit: Seq<Z>|
                {
                    &&& orbit.len() == limit + 1
                    &&& #[trigger] is_orbit(step, start, orbit)
                    &&& stays_bounded(escaped, orbit, limit as int)
                };
            assert forall|k: nat| k < limit implies !far(#[trigger] iterate(f, start, k + 1)) by {
                lemma_orbit_iterates(step, f, start, orbit, k + 1);
                assert(escaped.ensures((&orbit[k as int + 1],), false));
            }
        },
    }
}

/// A start whose first step has already escaped escapes at iteration 0,
/// whatever the limit, as long as it allows one step.
pub proof fn lemma_escapes_at_once<Z, S: Fn(Z) -> Z, E: Fn(&Z) -> bool>(
    step: S,
    escaped: E,
    start: Z,
    limit: u64,
    result: Option<u64>,
)
    requires
        limit >= 1,
        is_escape_time(step, escaped, start, limit, result),
        forall|next: Z| #[trigger]
            step.ensures((start,), next) ==> !escaped.ensures((&next,), false),
    ensures
        result == Some(0u64),
{
    match result {
        Some(i) => {
            let orbit = choose|orbit: Seq<Z>|
                {
                    &&& orbit.len() == i + 2
                    &&& #[trigger] is_orbit(step, start, orbit)
                    &&& stays_bounded(escaped, orbit, i as int)
                    &&& escaped.ensures((&orbit[i + 1],), true)
                };
            assert(step.ensures((orbit[0],), orbit[1]));
            if i > 0 {
                assert(escaped.ensures((&orbit[1],), false));
            }
        },
        None => {
            let orbit = choose|orbit: Seq<Z>|
                {
                    &&& orbit.len() == limit + 1
                    &&& #[trigger] is_orbit(step, start, orbit)
                    &&& stays_bounded(escaped, orbit, limit as int)
                };
            assert(step.ensures((orbit[0],), orbit[1]));
            assert(escaped.ensures((&orbit[1],), false));
        },
    }
}

/// Every point of an orbit that starts at a fixed point of `step` is that
/// point.
proof fn lemma_orbit_of_fixed_point<Z, S: Fn(Z) -> Z>(step: S, start: Z, orbit: Seq<Z>, k: int)
    requires
        is_orbit(step, start, orbit),
        forall|next: Z| #[trigger] step.ensures((start,), next) ==> next == start,
        0 <= k < orbit.len(),
    ensures
        orbit[k] == start,
    decreases k,
{
    if k > 0 {
        lemma_orbit_of_fixed_point(step, start, orbit, k - 1);
        assert(step.ensures((orbit[k - 1],), orbit[k]));
    }
}

/// A fixed point of `step` that has not escaped never escapes, whatever
/// the limit.
pub proof fn lemma_fixed_point_never_escapes<Z, S: Fn(Z) -> Z, E: Fn(&Z) -> bool>(
    step: S,
    escaped: E,
    start: Z,
    limit: u64,
    result: Option<u64>,
)
    requires
        is_escape_time(step, escaped, start, limit, result),
        forall|next: Z| #[trigger] step.ensures((start,), next) ==> next == start,
        !escaped.ensures((&start,), true),
    ensures
        result is None,
{
    if let Some(i) = result {
        let orbit = choose|orbit: Seq<Z>|
            {
                &&& orbit.len() == i + 2
                &&& #[trigger] is_orbit(step, start, orbit)
                &&& stays_bounded(escaped, orbit, i as int)
                &&& escaped.ensures((&orbit[i + 1],), true)
            };
        lemma_orbit_of_fixed_point(step, start, orbit, i + 1);
    }
}

} // verus!
