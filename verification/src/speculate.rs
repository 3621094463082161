//! Generic speculation primitives with no knowledge of CSS: run work on
//! a guessed input, then keep the result only where the guess was right.

use vstd::prelude::*;
use vstd::std_specs::cmp::PartialEqSpec;

verus! {

/// Statistics of one speculative run: which iterations were mispredicted.
#[derive(Debug, Clone)]
pub struct SpecStats {
    pub mispredictions: Vec<bool>,
}

/// Speculatively execute `consumer` on the predicted value while the
/// producer's value is computed; where the prediction was wrong, run
/// `consumer` again on the produced value.
///
/// Whatever the prediction, the result is a result of `consumer` on a
/// value of `producer`: observational equivalence with `consumer(producer())`.
pub fn speculate<A, B, P, Q, C>(producer: P, predictor: Q, consumer: C) -> (r: B) where
    A: PartialEq,
    P: FnOnce() -> A,
    Q: FnOnce() -> A,
    C: Fn(A) -> B,

    requires
        call_requires(producer, ()),
        call_requires(predictor, ()),
        forall|a: A| #[trigger] call_ensures(producer, (), a) ==> call_requires(consumer, (a,)),
        forall|a: A| #[trigger] call_ensures(predictor, (), a) ==> call_requires(consumer, (a,)),
        A::obeys_eq_spec(),
        forall|x: A, y: A| #[trigger] x.eq_spec(&y) ==> x == y,
    ensures
        exists|a: A| #[trigger] call_ensures(producer, (), a) && call_ensures(consumer, (a,), r),
{
    let prediction = predictor();
    let real_value = producer();
    let matched = real_value == prediction;
    let speculative_result = consumer(prediction);
    if matched {
        speculative_result
    } else {
        consumer(real_value)
    }
}

/// A value a body from the factory can produce at iteration `i` on `input`.
pub open spec fn body_result_ok<A, F: FnOnce(usize, A) -> A, BF: Fn() -> F>(
    loop_body: BF,
    i: usize,
    input: A,
    output: A,
) -> bool {
    exists|f: F| #[trigger] call_ensures(loop_body, (), f) && call_ensures(f, (i, input), output)
}

/// A value a predictor from the factory can guess for iteration `i`.
pub open spec fn predicted_ok<A, P: FnOnce(usize) -> A, PF: Fn() -> P>(
    predictor: PF,
    i: usize,
    value: A,
) -> bool {
    exists|p: P| #[trigger] call_ensures(predictor, (), p) && call_ensures(p, (i,), value)
}

/// Run `iters` loop iterations speculatively: each iteration `i` gets a
/// predicted input from a fresh predictor and computes its result with a
/// fresh body; a sequential validation pass then re-runs every iteration
/// whose prediction differs from its predecessor's (possibly repaired)
/// result.
///
/// After validation the chain is valid: each iteration's recorded input
/// is its predecessor's recorded result, iteration 0's input came from
/// the predictor, and every recorded result is a result of a body on the
/// recorded input. For deterministic bodies that makes the outcome equal
/// to the sequential fold.
pub fn specfold<A, F, P, BF, PF>(iters: usize, loop_body: BF, predictor: PF) -> (r: (
    SpecStats,
    Vec<(A, A)>,
)) where
    A: PartialEq + Copy,
    F: FnOnce(usize, A) -> A,
    P: FnOnce(usize) -> A,
    BF: Fn() -> F,
    PF: Fn() -> P,

    requires
        call_requires(loop_body, ()),
        call_requires(predictor, ()),
        forall|p: P, i: usize|
            call_ensures(predictor, (), p) && i < iters ==> #[trigger] call_requires(p, (i,)),
        forall|f: F, i: usize, a: A|
            call_ensures(loop_body, (), f) && i < iters ==> #[trigger] call_requires(f, (i, a)),
        A::obeys_eq_spec(),
        forall|x: A, y: A| #[trigger] x.eq_spec(&y) ==> x == y,
    ensures
        r.1@.len() == iters,
        r.0.mispredictions@.len() == iters,
        iters > 0 ==> r.0.mispredictions@[0] == false,
        forall|i: int| 1 <= i < iters ==> #[trigger] r.1@[i].0 == r.1@[i - 1].1,
        forall|i: int|
            #![trigger r.1@[i]]
            0 <= i < iters ==> body_result_ok(loop_body, i as usize, r.1@[i].0, r.1@[i].1),
        iters > 0 ==> predicted_ok(predictor, 0, r.1@[0].0),
{
    let mut results: Vec<(A, A)> = Vec::new();
    let mut mispredictions: Vec<bool> = Vec::new();
    let mut i: usize = 0;
    while i < iters
        invariant
            i <= iters,
            results@.len() == i,
            mispredictions@.len() == i,
            call_requires(loop_body, ()),
            call_requires(predictor, ()),
            forall|p: P, j: usize|
                call_ensures(predictor, (), p) && j < iters ==> #[trigger] call_requires(p, (j,)),
            forall|f: F, j: usize, a: A|
                call_ensures(loop_body, (), f) && j < iters ==> #[trigger] call_requires(
                    f,
                    (j, a),
                ),
            forall|j: int|
                #![trigger results@[j]]
                0 <= j < i ==> body_result_ok(loop_body, j as usize, results@[j].0, results@[j].1),
            forall|j: int|
                #![trigger results@[j]]
                0 <= j < i ==> predicted_ok(predictor, j as usize, results@[j].0),
            forall|j: int| 0 <= j < i ==> mispredictions@[j] == false,
        decreases iters - i,
    {
        let p = predictor();
        let f = loop_body();
        let prediction = p(i);
        let res = f(i, prediction);
        results.push((prediction, res));
        mispredictions.push(false);
        proof {
            assert(body_result_ok(loop_body, i, prediction, res));
            assert(predicted_ok(predictor, i, prediction));
        }
        i = i + 1;
    }
    let mut k: usize = 1;
    while k < iters
        invariant
            iters >= 1 ==> 1 <= k,
            k <= iters || iters == 0,
            results@.len() == iters,
            mispredictions@.len() == iters,
            call_requires(loop_body, ()),
            forall|f: F, j: usize, a: A|
                call_ensures(loop_body, (), f) && j < iters ==> #[trigger] call_requires(
                    f,
                    (j, a),
                ),
            A::obeys_eq_spec(),
            forall|x: A, y: A| #[trigger] x.eq_spec(&y) ==> x == y,
            forall|j: int|
                #![trigger results@[j]]
                0 <= j < iters ==> body_result_ok(
                    loop_body,
                    j as usize,
                    results@[j].0,
                    results@[j].1,
                ),
            iters > 0 ==> predicted_ok(predictor, 0, results@[0].0),
            iters > 0 ==> mispredictions@[0] == false,
            forall|j: int| 1 <= j < k ==> #[trigger] results@[j].0 == results@[j - 1].1,
        decreases iters - k,
    {
        let previous = results[k - 1].1;
        let prediction = results[k].0;
        if previous != prediction {
            let f = loop_body();
            let res = f(k, previous);
            results[k] = (previous, res);
            mispredictions[k] = true;
            proof {
                assert(body_result_ok(loop_body, k, previous, res));
            }
        }
        k = k + 1;
    }
    (SpecStats { mispredictions }, results)
}

} // verus!
