use vstd::arithmetic::power::{lemma_pow_adds, lemma_pow_increases, lemma_pow_positive, pow};
use vstd::prelude::*;

use crate::digits::{
    all_digits, digits_of, digits_value, get_digits, lemma_digits_of_value,
    lemma_long_digits_positive, lemma_value_below_pow, lemma_value_concat, symbol_rank, to_number,
};
use crate::partition::{part_bound, parts_of, valid_splits, ContiguousPartitions};
use crate::reducer::{
    candidate, is_ordering, lemma_candidate_bound, lemma_reduce_is_least_candidate,
    numeric_core_sequence, operands, reduce_value,
};

verus! {

/// The four numbers that the cut positions `u` make of the digits of `v` in `radix`.
pub open spec fn quadruple(v: nat, radix: nat, u: Seq<usize>) -> Seq<int> {
    parts_of(digits_of(v, radix), u).map_values(|p: Seq<char>| digits_value(p, radix) as int)
}

/// The digits of `v` are long enough to be cut into four parts.
pub open spec fn splittable(v: nat, radix: nat) -> bool {
    2 <= radix <= 36 && digits_of(v, radix).len() >= 4
}

/// The core of every value below `v`; nothing for the others.
pub open spec fn cores_below(v: nat, radix: nat) -> spec_fn(nat) -> Option<int>
    decreases v, 0nat,
{
    |r: nat|
        if r < v {
            core_value(r, radix)
        } else {
            None
        }
}

/// Cutting the digits of `v` at `u`, reducing the four numbers and taking `core` of the
/// result gives `x`.
pub open spec fn reaches(
    v: nat,
    radix: nat,
    u: Seq<usize>,
    x: int,
    core: spec_fn(nat) -> Option<int>,
) -> bool {
    &&& splittable(v, radix)
    &&& valid_splits(u, digits_of(v, radix).len(), 4)
    &&& reduce_value(quadruple(v, radix, u)) matches Some(r) && core(r as nat) == Some(x)
}

/// `x` is reached through some cut of the digits of `v`, and no cut reaches less.
pub open spec fn least_reached(v: nat, radix: nat, x: int, core: spec_fn(nat) -> Option<int>) -> bool {
    &&& exists|u: Seq<usize>| reaches(v, radix, u, x, core)
    &&& forall|u: Seq<usize>, y: int| reaches(v, radix, u, y, core) ==> x <= y
}

/// The numeric core of `v` in `radix`: `v` itself when it has fewer than four digits;
/// otherwise the least core reached over every cut into four parts, or `None` if no cut
/// reaches one. (Every reduction is smaller than `v`, see `lemma_step_decreases`, so
/// the cores below `v` are all that is needed.)
pub open spec fn core_value(v: nat, radix: nat) -> Option<int>
    decreases v, 1nat,
{
    if !splittable(v, radix) {
        Some(v as int)
    } else {
        least_core(v, radix, cores_below(v, radix))
    }
}

/// The limit to values below `v` in `core_value` leaves nothing out: every reduction of a
/// cut of `v` is below `v`, so its core is taken in full.
pub proof fn lemma_reduction_core(v: nat, radix: nat, u: Seq<usize>)
    requires
        splittable(v, radix),
        valid_splits(u, digits_of(v, radix).len(), 4),
    ensures
        reduce_value(quadruple(v, radix, u)) matches Some(r) ==> cores_below(v, radix)(r as nat)
            == core_value(r as nat, radix),
{
    lemma_step_decreases(v, radix, u);
}

/// The least value that `core` gives over every cut of the digits of `v`, if any.
pub open spec fn least_core(v: nat, radix: nat, core: spec_fn(nat) -> Option<int>) -> Option<int> {
    if exists|u: Seq<usize>, x: int| reaches(v, radix, u, x, core) {
        Some(choose|x: int| least_reached(v, radix, x, core))
    } else {
        None
    }
}

/// The four numbers of a cut are digits of `radix` read from the canonical digits of `v`,
/// each at most `v`, and their reduction is smaller than `v`.
pub proof fn lemma_step_decreases(v: nat, radix: nat, u: Seq<usize>)
    requires
        splittable(v, radix),
        valid_splits(u, digits_of(v, radix).len(), 4),
    ensures
        quadruple(v, radix, u).len() == 4,
        forall|k: int|
            0 <= k < 4 ==> all_digits(#[trigger] parts_of(digits_of(v, radix), u)[k], radix),
        forall|k: int| 0 <= k < 4 ==> 0 <= #[trigger] quadruple(v, radix, u)[k] <= v,
        reduce_value(quadruple(v, radix, u)) matches Some(r) ==> 0 <= r < v,
{
    let d = digits_of(v, radix);
    let len = d.len();
    let q = quadruple(v, radix, u);
    let ps = parts_of(d, u);
    let a = u[0] as int;
    let b = u[1] as int;
    let c = u[2] as int;
    let r = radix as int;
    lemma_digits_of_value(v, radix);
    lemma_long_digits_positive(v, radix);
    assert(ps[0] == d.subrange(0, a));
    assert(ps[1] == d.subrange(a, b));
    assert(ps[2] == d.subrange(b, c));
    assert(ps[3] == d.subrange(c, len as int));
    assert forall|k: int| 0 <= k < 4 implies all_digits(#[trigger] ps[k], radix) by {
        assert forall|i: int| 0 <= i < ps[k].len() implies symbol_rank(#[trigger] ps[k][i]) < radix by {
            assert(ps[k][i] == d[part_bound(u, len, k) + i]);
        }
    }
    let g0 = ps[0];
    let g1 = ps[1];
    let g2 = ps[2];
    let g3 = ps[3];
    assert(d =~= g0 + (g1 + (g2 + g3)));
    lemma_value_concat(g0, g1 + (g2 + g3), radix);
    lemma_value_concat(g1, g2 + g3, radix);
    lemma_value_concat(g2, g3, radix);
    let e = (len - a - 2) as nat;
    lemma_pow_positive(r, (len - a) as nat);
    lemma_pow_positive(r, (len - b) as nat);
    lemma_pow_positive(r, (len - c) as nat);
    lemma_pow_positive(r, e);
    let rest = digits_value(g1 + (g2 + g3), radix);
    let tail = digits_value(g2 + g3, radix);
    assert(q[0] * pow(r, (len - a) as nat) >= q[0]) by (nonlinear_arith)
        requires
            q[0] >= 0,
            pow(r, (len - a) as nat) >= 1,
    ;
    assert(q[1] * pow(r, (len - b) as nat) >= q[1]) by (nonlinear_arith)
        requires
            q[1] >= 0,
            pow(r, (len - b) as nat) >= 1,
    ;
    assert(q[2] * pow(r, (len - c) as nat) >= q[2]) by (nonlinear_arith)
        requires
            q[2] >= 0,
            pow(r, (len - c) as nat) >= 1,
    ;
    assert(q[0] * pow(r, (len - a) as nat) >= 0) by (nonlinear_arith)
        requires
            q[0] >= 0,
            pow(r, (len - a) as nat) >= 1,
    ;
    assert(q[1] * pow(r, (len - b) as nat) >= 0) by (nonlinear_arith)
        requires
            q[1] >= 0,
            pow(r, (len - b) as nat) >= 1,
    ;
    assert(q[2] * pow(r, (len - c) as nat) >= 0) by (nonlinear_arith)
        requires
            q[2] >= 0,
            pow(r, (len - c) as nat) >= 1,
    ;
    if let Some(m) = reduce_value(q) {
        let bound = pow(r, e);
        lemma_value_below_pow(g1, radix);
        lemma_value_below_pow(g2, radix);
        lemma_value_below_pow(g3, radix);
        lemma_pow_increases(radix, g1.len(), e);
        lemma_pow_increases(radix, g2.len(), e);
        lemma_pow_increases(radix, g3.len(), e);
        lemma_reduce_is_least_candidate(q);
        let ops = choose|ops: Seq<crate::reducer::Operation>|
            is_ordering(ops) && candidate(q, ops) == Some(m);
        lemma_candidate_bound(q, ops, bound);
        lemma_pow_adds(r, 2, e);
        assert(pow(r, 2) == r * r) by {
            vstd::arithmetic::power::lemma_square_is_pow2(r);
        }
        assert((len - a) as nat == 2 + e);
        assert(q[0] * bound < v) by (nonlinear_arith)
            requires
                q[0] >= 0,
                bound >= 1,
                r >= 2,
                q[0] * (r * r * bound) <= v,
                v >= 1,
        ;
    }
}

/// The least core reached over the cuts in `done`, as the driver keeps it.
pub open spec fn best_so_far(v: nat, radix: nat, done: spec_fn(Seq<usize>) -> bool, best: Option<u32>) -> bool {
    &&& best is None <==> forall|u: Seq<usize>, x: int| done(u) ==> !reaches(v, radix, u, x, cores_below(v, radix))
    &&& best matches Some(b) ==> {
        &&& exists|u: Seq<usize>| done(u) && reaches(v, radix, u, b as int, cores_below(v, radix))
        &&& forall|u: Seq<usize>, x: int| done(u) && reaches(v, radix, u, x, cores_below(v, radix)) ==> b <= x
    }
}

/// The numeric core of `number` in `radix`: `number` itself when it has fewer than four
/// digits, else the least core reached by cutting its digits into four numbers, reducing
/// them and taking the core of the result; `None` when no cut reaches one.
pub fn numeric_core(number: u32, radix: u32) -> (r: Option<u32>)
    requires
        2 <= radix <= 36,
    ensures
        r matches Some(x) ==> core_value(number as nat, radix as nat) == Some(x as int),
        r is None ==> core_value(number as nat, radix as nat) is None,
        digits_of(number as nat, radix as nat).len() < 4 ==> r == Some(number),
    decreases number,
{
    let digits = get_digits(number, radix);
    if digits.len() < 4 {
        return Some(number);
    }
    let ghost v = number as nat;
    let ghost rx = radix as nat;
    let ghost d = digits@;
    let ghost len = d.len();
    let mut parts = match ContiguousPartitions::new(digits.as_slice(), 4) {
        Some(p) => p,
        None => {
            return None;
        },
    };
    let mut best: Option<u32> = None;
    loop
        invariant
            2 <= radix <= 36,
            v == number,
            rx == radix,
            d == digits@,
            d == digits_of(v, rx),
            len == d.len(),
            len >= 4,
            parts.wf(),
            parts.items() == d,
            parts.parts() == 4,
            best_so_far(v, rx, |u: Seq<usize>| valid_splits(u, len, 4) && parts.done(u), best),
        ensures
            best_so_far(v, rx, |u: Seq<usize>| valid_splits(u, len, 4), best),
        decreases
            if parts.is_finished() { 0int } else { 1int },
            len - parts.splits()[0],
            len - parts.splits()[1],
            len - parts.splits()[2],
    {
        let ghost before = parts;
        match parts.next() {
            None => {
                break;
            },
            Some(p) => {
                let ghost s = before.splits();
                proof {
                    lemma_step_decreases(v, rx, s);
                }
                assert(p@.len() == 4);
                assert(p[0]@ == parts_of(d, s)[0]);
                assert(p[1]@ == parts_of(d, s)[1]);
                assert(p[2]@ == parts_of(d, s)[2]);
                assert(p[3]@ == parts_of(d, s)[3]);
                let q0 = to_number(p[0], radix).unwrap();
                let q1 = to_number(p[1], radix).unwrap();
                let q2 = to_number(p[2], radix).unwrap();
                let q3 = to_number(p[3], radix).unwrap();
                let quad: [u32; 4] = [q0, q1, q2, q3];
                assert(operands(quad@) =~= quadruple(v, rx, s));
                let reduced = numeric_core_sequence(&quad);
                proof {
                    if let Some(m) = reduce_value(quadruple(v, rx, s)) {
                        assert(reduced == Some(m as u32));
                    }
                }
                let reached = match reduced {
                    Some(next) => numeric_core(next, radix),
                    None => None,
                };
                let ghost old_best = best;
                best = match (best, reached) {
                    (Some(x), Some(y)) => Some(if x <= y { x } else { y }),
                    (Some(x), None) => Some(x),
                    (None, _) => reached,
                };
                proof {
                    assert forall|x: int| #[trigger] reaches(v, rx, s, x, cores_below(v, rx)) <==> (reached matches Some(y) && x == y) by {
                    }
                    let old_done = |u: Seq<usize>| valid_splits(u, len, 4) && before.done(u);
                    let new_done = |u: Seq<usize>| valid_splits(u, len, 4) && parts.done(u);
                    assert forall|u: Seq<usize>| #[trigger] new_done(u) <==> (old_done(u) || u == s) by {}
                    lemma_best_step(v, rx, old_done, new_done, s, old_best, reached, best);
                }
            },
        }
    }
    proof {
        lemma_core_from_best(v, rx, len, best);
    }
    best
}

/// Handing out one more cut `s`, which reaches exactly `reached`, keeps the least core
/// up to date.
proof fn lemma_best_step(
    v: nat,
    radix: nat,
    old_done: spec_fn(Seq<usize>) -> bool,
    new_done: spec_fn(Seq<usize>) -> bool,
    s: Seq<usize>,
    best: Option<u32>,
    reached: Option<u32>,
    new_best: Option<u32>,
)
    requires
        best_so_far(v, radix, old_done, best),
        forall|u: Seq<usize>| #[trigger] new_done(u) <==> (old_done(u) || u == s),
        forall|x: int| #[trigger] reaches(v, radix, s, x, cores_below(v, radix)) <==> (reached matches Some(y) && x == y),
        new_best == (match (best, reached) {
            (Some(x), Some(y)) => Some(if x <= y { x } else { y }),
            (Some(x), None) => Some(x),
            (None, _) => reached,
        }),
    ensures
        best_so_far(v, radix, new_done, new_best),
{
    if let Some(y) = reached {
        assert(reaches(v, radix, s, y as int, cores_below(v, radix)));
        assert(new_done(s));
    }
    if let Some(b) = best {
        let u = choose|u: Seq<usize>| old_done(u) && reaches(v, radix, u, b as int, cores_below(v, radix));
        assert(new_done(u));
    }
}

/// Once every cut has been handed out, the least core found is the core.
proof fn lemma_core_from_best(v: nat, radix: nat, len: nat, best: Option<u32>)
    requires
        splittable(v, radix),
        len == digits_of(v, radix).len(),
        best is None <==> forall|u: Seq<usize>, x: int|
            valid_splits(u, len, 4) ==> !reaches(v, radix, u, x, cores_below(v, radix)),
        best matches Some(b) ==> {
            &&& exists|u: Seq<usize>| valid_splits(u, len, 4) && reaches(v, radix, u, b as int, cores_below(v, radix))
            &&& forall|u: Seq<usize>, x: int|
                valid_splits(u, len, 4) && reaches(v, radix, u, x, cores_below(v, radix)) ==> b <= x
        },
    ensures
        best matches Some(x) ==> core_value(v, radix) == Some(x as int),
        best is None ==> core_value(v, radix) is None,
{
    assert forall|u: Seq<usize>, x: int| reaches(v, radix, u, x, cores_below(v, radix)) implies valid_splits(u, len, 4) by {}
    if let Some(b) = best {
        let u = choose|u: Seq<usize>| valid_splits(u, len, 4) && reaches(v, radix, u, b as int, cores_below(v, radix));
        assert(least_reached(v, radix, b as int, cores_below(v, radix)));
        assert(exists|u: Seq<usize>, x: int| reaches(v, radix, u, x, cores_below(v, radix)));
        let c = choose|x: int| least_reached(v, radix, x, cores_below(v, radix));
        assert(least_reached(v, radix, c, cores_below(v, radix)));
        let uc = choose|u: Seq<usize>| reaches(v, radix, u, c, cores_below(v, radix));
        assert(b <= c);
        assert(c <= b);
        assert(core_value(v, radix) == least_core(v, radix, cores_below(v, radix)));
    } else {
        assert(!exists|u: Seq<usize>, x: int| reaches(v, radix, u, x, cores_below(v, radix)));
        assert(core_value(v, radix) == least_core(v, radix, cores_below(v, radix)));
    }
}

} // verus!
