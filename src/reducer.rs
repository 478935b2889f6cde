use vstd::prelude::*;

verus! {

/// The binary operations that the reducer folds with, each used exactly once.
#[derive(Clone, Copy, PartialEq, Eq, Structural, Debug)]
pub enum Operation {
    Subtraction,
    Multiplication,
    Division,
}

/// The largest operand.
pub open spec fn operand_max() -> int {
    u32::MAX as int
}

/// One fold step on the exact rational `x = (numerator, denominator)`, with `x` on the
/// left of the operation and the operand `b` on the right; `None` on division by zero.
pub open spec fn apply(op: Operation, x: (int, int), b: int) -> Option<(int, int)> {
    match op {
        Operation::Subtraction => Some((x.0 - b * x.1, x.1)),
        Operation::Multiplication => Some((x.0 * b, x.1)),
        Operation::Division => if b == 0 {
            None
        } else {
            Some((x.0, x.1 * b))
        },
    }
}

pub open spec fn apply_opt(x: Option<(int, int)>, op: Operation, b: int) -> Option<(int, int)> {
    match x {
        Some(v) => apply(op, v, b),
        None => None,
    }
}

/// The left fold of the four operands `q` with the three operations `ops`, in order.
pub open spec fn fold_ops(q: Seq<int>, ops: Seq<Operation>) -> Option<(int, int)> {
    apply_opt(apply_opt(apply(ops[0], (q[0], 1), q[1]), ops[1], q[2]), ops[2], q[3])
}

/// A fold result counts when it is a non-negative integer.
pub open spec fn accepted(x: Option<(int, int)>) -> Option<int> {
    match x {
        Some(v) => if v.0 >= 0 && v.0 % v.1 == 0 {
            Some(v.0 / v.1)
        } else {
            None
        },
        None => None,
    }
}

/// The result of folding `q` with the operations in the order `ops`, if it counts.
pub open spec fn candidate(q: Seq<int>, ops: Seq<Operation>) -> Option<int> {
    accepted(fold_ops(q, ops))
}

/// `ops` uses each of the three operations exactly once.
pub open spec fn is_ordering(ops: Seq<Operation>) -> bool {
    &&& ops.len() == 3
    &&& ops.contains(Operation::Subtraction)
    &&& ops.contains(Operation::Multiplication)
    &&& ops.contains(Operation::Division)
}

/// The six orderings of the three operations.
pub open spec fn orderings() -> Seq<Seq<Operation>> {
    seq![
        seq![Operation::Subtraction, Operation::Multiplication, Operation::Division],
        seq![Operation::Subtraction, Operation::Division, Operation::Multiplication],
        seq![Operation::Multiplication, Operation::Subtraction, Operation::Division],
        seq![Operation::Multiplication, Operation::Division, Operation::Subtraction],
        seq![Operation::Division, Operation::Multiplication, Operation::Subtraction],
        seq![Operation::Division, Operation::Subtraction, Operation::Multiplication],
    ]
}

pub open spec fn opt_min(a: Option<int>, b: Option<int>) -> Option<int> {
    match (a, b) {
        (Some(x), Some(y)) => Some(if x <= y { x } else { y }),
        (Some(x), None) => Some(x),
        (None, _) => b,
    }
}

/// The least candidate among the first `k` orderings.
pub open spec fn least_candidate(q: Seq<int>, k: nat) -> Option<int>
    decreases k,
{
    if k == 0 {
        None
    } else {
        opt_min(least_candidate(q, (k - 1) as nat), candidate(q, orderings()[k - 1]))
    }
}

/// What the reducer makes of the operands `q`: the least candidate over all orderings.
pub open spec fn reduce_value(q: Seq<int>) -> Option<int> {
    least_candidate(q, 6)
}

/// A value as `u32`, the values above `u32::MAX` taken as `u32::MAX`.
pub open spec fn saturate(r: Option<int>) -> Option<u32> {
    match r {
        Some(v) => Some(if v > u32::MAX { u32::MAX } else { v as u32 }),
        None => None,
    }
}

/// The operands of a quadruple, as integers.
pub open spec fn operands(s: Seq<u32>) -> Seq<int> {
    s.map_values(|x: u32| x as int)
}

/// An exact rational: numerator over a positive denominator.
#[derive(Clone, Copy)]
struct Fraction {
    num: i128,
    den: i128,
}

impl Fraction {
    spec fn pair(self) -> (int, int) {
        (self.num as int, self.den as int)
    }

    /// Small enough for any one fold step.
    spec fn bounded(self) -> bool {
        &&& 1 <= self.den <= operand_max()
        &&& -(operand_max() * operand_max() + operand_max()) <= self.num <= operand_max()
            * operand_max() + operand_max()
    }
}

/// One fold step: `rhs op lhs`, with the running value `rhs` on the left.
fn operate(op: Operation, rhs: Fraction, lhs: u32) -> (r: Option<Fraction>)
    requires
        rhs.bounded(),
    ensures
        r matches Some(f) ==> apply(op, rhs.pair(), lhs as int) == Some(f.pair()) && f.den >= 1,
        r is None ==> apply(op, rhs.pair(), lhs as int) is None,
{
    let b = lhs as i128;
    assert(rhs.den * lhs <= operand_max() * operand_max()) by (nonlinear_arith)
        requires
            1 <= rhs.den <= operand_max(),
            0 <= lhs <= operand_max(),
    ;
    assert(-(operand_max() * operand_max() + operand_max()) * operand_max() <= rhs.num * lhs
        <= (operand_max() * operand_max() + operand_max()) * operand_max()) by (nonlinear_arith)
        requires
            rhs.bounded(),
            0 <= lhs <= operand_max(),
    ;
    match op {
        Operation::Subtraction => Some(Fraction { num: rhs.num - b * rhs.den, den: rhs.den }),
        Operation::Multiplication => Some(Fraction { num: rhs.num * b, den: rhs.den }),
        Operation::Division => {
            if b == 0 {
                None
            } else {
                assert(rhs.den * lhs >= 1) by (nonlinear_arith)
                    requires
                        rhs.den >= 1,
                        lhs >= 1,
                ;
                Some(Fraction { num: rhs.num, den: rhs.den * b })
            }
        },
    }
}

/// The orderings of the three operations, one for each `k < 6`.
fn ordering(k: usize) -> (ops: [Operation; 3])
    requires
        k < 6,
    ensures
        ops@ == orderings()[k as int],
{
    let ops = if k == 0 {
        [Operation::Subtraction, Operation::Multiplication, Operation::Division]
    } else if k == 1 {
        [Operation::Subtraction, Operation::Division, Operation::Multiplication]
    } else if k == 2 {
        [Operation::Multiplication, Operation::Subtraction, Operation::Division]
    } else if k == 3 {
        [Operation::Multiplication, Operation::Division, Operation::Subtraction]
    } else if k == 4 {
        [Operation::Division, Operation::Multiplication, Operation::Subtraction]
    } else {
        [Operation::Division, Operation::Subtraction, Operation::Multiplication]
    };
    assert(ops@ =~= orderings()[k as int]);
    ops
}

/// After two fold steps from operands up to `u32::MAX` the running value is still
/// small enough for a third.
proof fn lemma_two_steps_bounded(a: int, b: int, c: int, ops: Seq<Operation>)
    requires
        0 <= a <= operand_max(),
        0 <= b <= operand_max(),
        0 <= c <= operand_max(),
        is_ordering(ops),
    ensures
        apply(ops[0], (a, 1), b) matches Some(x1) ==> {
            &&& 1 <= x1.1 <= operand_max()
            &&& -(operand_max() * operand_max() + operand_max()) <= x1.0 <= operand_max()
                * operand_max() + operand_max()
        },
        apply_opt(apply(ops[0], (a, 1), b), ops[1], c) matches Some(x2) ==> {
            &&& 1 <= x2.1 <= operand_max()
            &&& -(operand_max() * operand_max() + operand_max()) <= x2.0 <= operand_max()
                * operand_max() + operand_max()
        },
{
    let m = operand_max();
    lemma_ordering_cases(ops);
    assert(0 <= a * b <= m * m) by (nonlinear_arith)
        requires
            0 <= a <= m,
            0 <= b <= m,
    ;
    assert(0 <= a * c <= m * m) by (nonlinear_arith)
        requires
            0 <= a <= m,
            0 <= c <= m,
    ;
    assert(0 <= c * b <= m * m) by (nonlinear_arith)
        requires
            0 <= c <= m,
            0 <= b <= m,
    ;
    assert(-(m * m) <= (a - b) * c <= m * m) by (nonlinear_arith)
        requires
            0 <= a <= m,
            0 <= b <= m,
            0 <= c <= m,
    ;
    assert(b * 1 == b);
    assert(1 * b == b);
    assert(1 * c == c);
}

/// The three operations in some order are one of the six listed orderings.
pub proof fn lemma_ordering_cases(ops: Seq<Operation>)
    requires
        is_ordering(ops),
    ensures
        exists|k: int| 0 <= k < 6 && orderings()[k] == ops,
{
    let i = choose|i: int| 0 <= i < ops.len() && ops[i] == Operation::Subtraction;
    let j = choose|j: int| 0 <= j < ops.len() && ops[j] == Operation::Multiplication;
    let l = choose|l: int| 0 <= l < ops.len() && ops[l] == Operation::Division;
    let k: int = if i == 0 && j == 1 {
        0
    } else if i == 0 {
        1
    } else if j == 0 && i == 1 {
        2
    } else if j == 0 {
        3
    } else if i == 2 {
        4
    } else {
        5
    };
    assert(orderings()[k] =~= ops);
}

/// The listed orderings each use every operation once.
pub proof fn lemma_listed_orderings(k: int)
    requires
        0 <= k < 6,
    ensures
        is_ordering(orderings()[k]),
{
    let ops = orderings()[k];
    assert(ops[0] == ops[0]);
    assert(ops[1] == ops[1]);
    assert(ops[2] == ops[2]);
}

/// Fold steps on non-negative operands keep the denominator positive.
proof fn lemma_apply_keeps_den(op: Operation, x: (int, int), b: int)
    requires
        x.1 >= 1,
        b >= 0,
    ensures
        apply(op, x, b) matches Some(y) ==> y.1 >= 1,
{
    if op == Operation::Division && b != 0 {
        assert(x.1 * b >= 1) by (nonlinear_arith)
            requires
                x.1 >= 1,
                b >= 1,
        ;
    }
}

/// Every candidate is non-negative.
pub proof fn lemma_candidate_nonneg(q: Seq<int>, ops: Seq<Operation>)
    requires
        q.len() == 4,
        forall|i: int| 0 <= i < 4 ==> q[i] >= 0,
    ensures
        candidate(q, ops) matches Some(v) ==> v >= 0,
{
    lemma_apply_keeps_den(ops[0], (q[0], 1), q[1]);
    if let Some(x1) = apply(ops[0], (q[0], 1), q[1]) {
        lemma_apply_keeps_den(ops[1], x1, q[2]);
        if let Some(x2) = apply(ops[1], x1, q[2]) {
            lemma_apply_keeps_den(ops[2], x2, q[3]);
            if let Some(x3) = apply(ops[2], x2, q[3]) {
                assert(x3.0 >= 0 ==> x3.0 / x3.1 >= 0) by (nonlinear_arith)
                    requires
                        x3.1 >= 1,
                ;
            }
        }
    }
}

proof fn lemma_least_candidate_nonneg(q: Seq<int>, k: nat)
    requires
        q.len() == 4,
        forall|i: int| 0 <= i < 4 ==> q[i] >= 0,
        k <= 6,
    ensures
        least_candidate(q, k) matches Some(v) ==> v >= 0,
    decreases k,
{
    if k > 0 {
        lemma_least_candidate_nonneg(q, (k - 1) as nat);
        lemma_candidate_nonneg(q, orderings()[k - 1]);
    }
}

proof fn lemma_least_among_first(q: Seq<int>, k: nat)
    requires
        k <= 6,
    ensures
        least_candidate(q, k) is None <==> forall|j: int|
            0 <= j < k ==> candidate(q, #[trigger] orderings()[j]) is None,
        least_candidate(q, k) matches Some(v) ==> {
            &&& exists|j: int| 0 <= j < k && candidate(q, #[trigger] orderings()[j]) == Some(v)
            &&& forall|j: int|
                0 <= j < k && (#[trigger] candidate(q, orderings()[j])) is Some ==> v <= candidate(
                    q,
                    orderings()[j],
                )->0
        },
    decreases k,
{
    if k > 0 {
        lemma_least_among_first(q, (k - 1) as nat);
        let c = candidate(q, orderings()[k - 1]);
        if let Some(v) = least_candidate(q, k) {
            if c == Some(v) {
                assert(candidate(q, orderings()[k - 1]) == Some(v));
            } else {
                let j = choose|j: int| 0 <= j < k - 1 && candidate(q, #[trigger] orderings()[j]) == Some(v);
                assert(candidate(q, orderings()[j]) == Some(v));
            }
        }
    }
}

/// The reducer's result is the least candidate over every order of the three operations,
/// a non-negative integer; there is none exactly when every order is disqualified.
pub proof fn lemma_reduce_is_least_candidate(q: Seq<int>)
    requires
        q.len() == 4,
        forall|i: int| 0 <= i < 4 ==> q[i] >= 0,
    ensures
        reduce_value(q) is None <==> forall|ops: Seq<Operation>|
            is_ordering(ops) ==> candidate(q, ops) is None,
        reduce_value(q) matches Some(v) ==> {
            &&& v >= 0
            &&& exists|ops: Seq<Operation>| is_ordering(ops) && candidate(q, ops) == Some(v)
            &&& forall|ops: Seq<Operation>|
                is_ordering(ops) && (#[trigger] candidate(q, ops)) is Some ==> v <= candidate(
                    q,
                    ops,
                )->0
        },
{
    lemma_least_among_first(q, 6);
    lemma_least_candidate_nonneg(q, 6);
    assert forall|ops: Seq<Operation>| is_ordering(ops) implies exists|j: int|
        0 <= j < 6 && orderings()[j] == ops by {
        lemma_ordering_cases(ops);
    }
    if reduce_value(q) is None {
        assert forall|ops: Seq<Operation>| is_ordering(ops) implies candidate(q, ops) is None by {
            let j = choose|j: int| 0 <= j < 6 && orderings()[j] == ops;
            assert(candidate(q, orderings()[j]) is None);
        }
    } else {
        let v = reduce_value(q)->0;
        let j = choose|j: int| 0 <= j < 6 && candidate(q, #[trigger] orderings()[j]) == Some(v);
        lemma_listed_orderings(j);
        assert(is_ordering(orderings()[j]) && candidate(q, orderings()[j]) == Some(v));
        assert forall|ops: Seq<Operation>|
            is_ordering(ops) && (#[trigger] candidate(q, ops)) is Some implies v <= candidate(
                q,
                ops,
            )->0 by {
            let i = choose|i: int| 0 <= i < 6 && orderings()[i] == ops;
            assert(candidate(q, orderings()[i]) is Some);
        }
    }
}

/// One fold step keeps the running value at most `w` when it was at most `u`, and a
/// multiplication by `b` stays within `w`.
proof fn lemma_apply_bound(op: Operation, x: (int, int), b: int, u: int, w: int)
    requires
        x.1 >= 1,
        x.0 <= u * x.1,
        0 <= u <= w,
        b >= 0,
        op == Operation::Multiplication ==> u * b <= w,
    ensures
        apply(op, x, b) matches Some(y) ==> y.1 >= 1 && y.0 <= w * y.1,
{
    assert(u * x.1 <= w * x.1) by (nonlinear_arith)
        requires
            u <= w,
            x.1 >= 1,
    ;
    match op {
        Operation::Subtraction => {
            assert(b * x.1 >= 0) by (nonlinear_arith)
                requires
                    b >= 0,
                    x.1 >= 1,
            ;
        },
        Operation::Multiplication => {
            assert(x.0 * b <= w * x.1) by (nonlinear_arith)
                requires
                    x.0 <= u * x.1,
                    b >= 0,
                    u * b <= w,
                    x.1 >= 1,
            ;
        },
        Operation::Division => {
            if b != 0 {
                assert(x.0 <= w * (x.1 * b) && x.1 * b >= 1) by (nonlinear_arith)
                    requires
                        x.0 <= w * x.1,
                        w >= 0,
                        b >= 1,
                        x.1 >= 1,
                ;
            }
        },
    }
}

/// A candidate is at most the first operand times `bound`, where `bound` is at least 1
/// and at least each other operand.
pub proof fn lemma_candidate_bound(q: Seq<int>, ops: Seq<Operation>, bound: int)
    requires
        q.len() == 4,
        forall|i: int| 0 <= i < 4 ==> q[i] >= 0,
        is_ordering(ops),
        bound >= 1,
        q[1] <= bound,
        q[2] <= bound,
        q[3] <= bound,
    ensures
        candidate(q, ops) matches Some(r) ==> r <= q[0] * bound,
{
    lemma_ordering_cases(ops);
    let top = q[0] * bound;
    assert(q[0] <= top) by (nonlinear_arith)
        requires
            q[0] >= 0,
            bound >= 1,
            top == q[0] * bound,
    ;
    assert(q[0] * q[1] <= top && q[0] * q[2] <= top && q[0] * q[3] <= top) by (nonlinear_arith)
        requires
            q[0] >= 0,
            q[1] <= bound,
            q[2] <= bound,
            q[3] <= bound,
            top == q[0] * bound,
    ;
    let m = Operation::Multiplication;
    let u1 = if ops[0] == m {
        top
    } else {
        q[0]
    };
    let u2 = if ops[0] == m || ops[1] == m {
        top
    } else {
        q[0]
    };
    let x0 = (q[0], 1int);
    assert(q[0] * 1 == q[0]);
    lemma_apply_bound(ops[0], x0, q[1], q[0], u1);
    if let Some(x1) = apply(ops[0], x0, q[1]) {
        lemma_apply_bound(ops[1], x1, q[2], u1, u2);
        if let Some(x2) = apply(ops[1], x1, q[2]) {
            lemma_apply_bound(ops[2], x2, q[3], u2, top);
            if let Some(x3) = apply(ops[2], x2, q[3]) {
                assert(x3.0 >= 0 ==> x3.0 / x3.1 <= top) by (nonlinear_arith)
                    requires
                        x3.1 >= 1,
                        x3.0 <= top * x3.1,
                ;
            }
        }
    }
}

/// The count of a running value, as the reducer reports it.
fn accept(x: Option<Fraction>) -> (r: Option<u32>)
    requires
        x matches Some(f) ==> f.den >= 1,
    ensures
        r == saturate(accepted(
            match x {
                Some(f) => Some(f.pair()),
                None => None,
            },
        )),
{
    match x {
        None => None,
        Some(f) => {
            if f.num >= 0 && f.num % f.den == 0 {
                let v = f.num / f.den;
                if v > u32::MAX as i128 {
                    Some(u32::MAX)
                } else {
                    Some(v as u32)
                }
            } else {
                None
            }
        },
    }
}

/// Folds the four operands with the operations in the `k`-th ordering.
fn evaluate(sequence: &[u32; 4], k: usize) -> (r: Option<u32>)
    requires
        k < 6,
    ensures
        r == saturate(candidate(operands(sequence@), orderings()[k as int])),
{
    let ops = ordering(k);
    let q = Ghost(operands(sequence@));
    assert(sequence@.len() == 4);
    assert(q@[0] == sequence[0] as int && q@[1] == sequence[1] as int && q@[2] == sequence[2] as int && q@[3] == sequence[3] as int);
    proof {
        lemma_listed_orderings(k as int);
        lemma_two_steps_bounded(q@[0], q@[1], q@[2], ops@);
    }
    let x0 = Fraction { num: sequence[0] as i128, den: 1 };
    let x1 = operate(ops[0], x0, sequence[1]);
    let x2 = match x1 {
        Some(f) => operate(ops[1], f, sequence[2]),
        None => None,
    };
    let x3 = match x2 {
        Some(f) => operate(ops[2], f, sequence[3]),
        None => None,
    };
    accept(x3)
}

/// The least non-negative integer that folding `sequence` left to right with subtraction,
/// multiplication and division, each once and in any order, can give; `None` when no
/// order gives one. A result above `u32::MAX` is reported as `u32::MAX`.
pub fn numeric_core_sequence(sequence: &[u32; 4]) -> (r: Option<u32>)
    ensures
        r == saturate(reduce_value(operands(sequence@))),
{
    let ghost q = operands(sequence@);
    assert(sequence@.len() == 4);
    let mut min: Option<u32> = None;
    let mut k: usize = 0;
    while k < 6
        invariant
            k <= 6,
            q == operands(sequence@),
            q.len() == 4,
            forall|i: int| 0 <= i < 4 ==> q[i] >= 0,
            min == saturate(least_candidate(q, k as nat)),
        decreases 6 - k,
    {
        let c = evaluate(sequence, k);
        proof {
            lemma_least_candidate_nonneg(q, k as nat);
            lemma_candidate_nonneg(q, orderings()[k as int]);
        }
        assert(least_candidate(q, (k + 1) as nat) == opt_min(
            least_candidate(q, k as nat),
            candidate(q, orderings()[k as int]),
        ));
        min = match (min, c) {
            (Some(x), Some(y)) => Some(if x <= y { x } else { y }),
            (Some(x), None) => Some(x),
            (None, _) => c,
        };
        k = k + 1;
    }
    min
}

} // verus!
