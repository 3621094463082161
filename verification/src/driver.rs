//! The speculative parallel driver: the boundary predictor, the
//! per-partition worker, and the validate-and-repair pass that stitches
//! partition outputs into the sequential token stream.

use crate::lexer::{preprocess, Node, Tokenizer};
use crate::model::{lemma_lex_step, lex_step, preprocess_spec, token_stream, TokenModel};
use crate::speculate::SpecStats;
use std::sync::Arc;
use vstd::prelude::*;
use vstd::string::StrSliceExecFns;

verus! {

/// How far the boundary predictor rewinds before lexing.
pub const LOOKBACK: usize = 10;

// ------------------------------------------------------------------
// Models
// ------------------------------------------------------------------

/// The position the lexer reaches when it steps from `p` until it stands
/// at or after `start`, or at the end of the input.
pub open spec fn nts_from(s: Seq<char>, p: int, start: int) -> int
    decreases s.len() - p,
    when 0 <= p <= s.len()
    via nts_from_dec
{
    if p >= start {
        p
    } else {
        let st = lex_step(s, p);
        match st.token {
            None => st.end,
            Some(t) => nts_from(s, st.end, start),
        }
    }
}

#[via_fn]
proof fn nts_from_dec(s: Seq<char>, p: int, start: int) {
    lemma_lex_step(s, p);
}

/// What the boundary predictor returns: rewind `LOOKBACK` characters,
/// then lex forward to the first boundary at or after `start`.
pub open spec fn next_token_start_spec(s: Seq<char>, start: int) -> int {
    let init = if start < LOOKBACK {
        0
    } else if start - LOOKBACK < s.len() {
        start - LOOKBACK
    } else {
        s.len() as int
    };
    nts_from(s, init, start)
}

/// What one partition worker produces from `p`: the tokens read while
/// the position is below `upper` (one token may overshoot), and the
/// position it stops at.
pub open spec fn tokens_until(s: Seq<char>, p: int, upper: int) -> (Seq<TokenModel>, int)
    decreases s.len() - p,
    when 0 <= p <= s.len()
    via tokens_until_dec
{
    if p >= upper {
        (Seq::empty(), p)
    } else {
        let st = lex_step(s, p);
        match st.token {
            None => (Seq::empty(), st.end),
            Some(t) => {
                let r = tokens_until(s, st.end, upper);
                (seq![t] + r.0, r.1)
            },
        }
    }
}

#[via_fn]
proof fn tokens_until_dec(s: Seq<char>, p: int, upper: int) {
    lemma_lex_step(s, p);
}

/// The width of one partition: the length divided by the partition
/// count, rounded up.
pub open spec fn partition_width(len: int, n: int) -> int {
    len / n + if len % n != 0 {
        1int
    } else {
        0int
    }
}

/// The upper bound of partition `i`.
pub open spec fn partition_upper(len: int, isz: int, i: int) -> int {
    if (i + 1) * isz < len {
        (i + 1) * isz
    } else {
        len
    }
}

/// Where the chain of validated workers stands after partition `i`:
/// partition 0 starts at 0, and each later partition starts where its
/// predecessor ended.
pub open spec fn chain_end(s: Seq<char>, isz: int, i: int) -> int
    decreases i,
{
    if i <= 0 {
        tokens_until(s, 0, partition_upper(s.len() as int, isz, 0)).1
    } else {
        tokens_until(s, chain_end(s, isz, i - 1), partition_upper(s.len() as int, isz, i)).1
    }
}

// ------------------------------------------------------------------
// Lemmas
// ------------------------------------------------------------------

/// Lexing towards a target offset never leaves the input, and stops at
/// or after the target whenever the target is inside the input.
pub proof fn lemma_nts_from_bounds(s: Seq<char>, p: int, start: int)
    requires
        0 <= p <= s.len(),
    ensures
        nts_from(s, p, start) <= s.len(),
        nts_from(s, p, start) >= p || nts_from(s, p, start) == s.len(),
        start <= s.len() ==> nts_from(s, p, start) >= start || nts_from(s, p, start) == s.len(),
    decreases s.len() - p,
{
    lemma_lex_step(s, p);
    if p < start {
        let st = lex_step(s, p);
        if st.token is Some {
            lemma_nts_from_bounds(s, st.end, start);
        }
    }
}

/// The predictor never leaves the input, and never answers before the
/// requested offset when that offset is inside the input.
pub proof fn lemma_next_token_start_bounds(s: Seq<char>, start: int)
    requires
        0 <= start,
    ensures
        0 <= next_token_start_spec(s, start) <= s.len(),
        start <= s.len() ==> start <= next_token_start_spec(s, start),
{
    let init = if start < LOOKBACK {
        0
    } else if start - LOOKBACK < s.len() {
        start - LOOKBACK
    } else {
        s.len() as int
    };
    lemma_nts_from_bounds(s, init, start);
}

/// Offset 0 is always its own boundary, so the predictor is idempotent
/// at the start of the input.
pub proof fn lemma_next_token_start_zero(s: Seq<char>)
    ensures
        next_token_start_spec(s, 0) == 0,
{
}

proof fn lemma_nts_from_to_end(s: Seq<char>, p: int, start: int)
    requires
        0 <= p <= s.len() <= start,
    ensures
        nts_from(s, p, start) == s.len(),
    decreases s.len() - p,
{
    lemma_lex_step(s, p);
    if p < start {
        let st = lex_step(s, p);
        if st.token is Some {
            lemma_nts_from_to_end(s, st.end, start);
        }
    }
}

/// Every offset at or past the end of the input answers with the end of
/// the input; in particular the end is a fixed point of the predictor,
/// so the predictor is idempotent at every boundary it moved to the end.
pub proof fn lemma_next_token_start_at_end(s: Seq<char>, start: int)
    requires
        start >= s.len(),
    ensures
        next_token_start_spec(s, start) == s.len(),
{
    let init = if start < LOOKBACK {
        0
    } else if start - LOOKBACK < s.len() {
        start - LOOKBACK
    } else {
        s.len() as int
    };
    lemma_nts_from_to_end(s, init, start);
}

/// Stitching: what a worker emits from `p`, followed by the stream from
/// where it stopped, is exactly the stream from `p`; and a worker whose
/// bound lies inside the input never stops before that bound.
pub proof fn lemma_partition_stitch(s: Seq<char>, p: int, upper: int)
    requires
        0 <= p <= s.len(),
    ensures
        p <= tokens_until(s, p, upper).1 <= s.len(),
        upper <= s.len() ==> tokens_until(s, p, upper).1 >= upper,
        token_stream(s, p) == tokens_until(s, p, upper).0 + token_stream(
            s,
            tokens_until(s, p, upper).1,
        ),
    decreases s.len() - p,
{
    lemma_lex_step(s, p);
    if p >= upper {
        assert(Seq::<TokenModel>::empty() + token_stream(s, p) =~= token_stream(s, p));
    } else {
        let st = lex_step(s, p);
        match st.token {
            None => {
                assert(token_stream(s, p) =~= Seq::<TokenModel>::empty());
                assert(token_stream(s, st.end) =~= Seq::<TokenModel>::empty());
                assert(Seq::<TokenModel>::empty() + token_stream(s, st.end) =~= token_stream(
                    s,
                    p,
                ));
            },
            Some(t) => {
                lemma_partition_stitch(s, st.end, upper);
                let r = tokens_until(s, st.end, upper);
                assert(seq![t] + (r.0 + token_stream(s, r.1)) =~= (seq![t] + r.0)
                    + token_stream(s, r.1));
            },
        }
    }
}

// ------------------------------------------------------------------
// The predictor
// ------------------------------------------------------------------

/// Find the start of the next token at or after `start`: back up
/// `LOOKBACK` characters and lex until reaching or passing `start`.
/// Assumes `input` has already been preprocessed.
pub fn next_token_start(input: Arc<String>, start: usize) -> (r: usize)
    requires
        input@.len() < usize::MAX,
    ensures
        r == next_token_start_spec(input@, start as int),
        r <= input@.len(),
        start <= input@.len() ==> start <= r,
{
    let ghost s = input@;
    let mut tokenizer = Tokenizer::new(input);
    tokenizer.position = if start < LOOKBACK {
        0
    } else if start - LOOKBACK < tokenizer.length {
        start - LOOKBACK
    } else {
        tokenizer.length
    };
    proof {
        lemma_next_token_start_bounds(s, start as int);
    }
    loop
        invariant
            tokenizer.wf(),
            tokenizer.buf() == s,
            nts_from(s, tokenizer.position as int, start as int) == next_token_start_spec(
                s,
                start as int,
            ),
        ensures
            tokenizer.position as int == next_token_start_spec(s, start as int),
        decreases s.len() - tokenizer.position,
    {
        if tokenizer.position >= start {
            break ;
        }
        proof {
            lemma_lex_step(s, tokenizer.position as int);
        }
        let n = tokenizer.next();
        if n.is_none() {
            proof {
                lemma_lex_step(s, tokenizer.position as int);
            }
            break ;
        }
    }
    tokenizer.position
}

// ------------------------------------------------------------------
// The worker
// ------------------------------------------------------------------

/// Lex one partition: emit tokens from `token_start` while the position
/// is below `upper` (the last token may overshoot), and report the
/// position reached.
fn run_partition(input: &Arc<String>, token_start: usize, upper: usize) -> (r: (Vec<Node>, usize))
    requires
        input@.len() < usize::MAX,
        token_start <= input@.len(),
    ensures
        r.0@.map_values(|n: Node| n.0@) == tokens_until(input@, token_start as int, upper as int).0,
        r.1 == tokens_until(input@, token_start as int, upper as int).1,
        r.1 <= input@.len(),
{
    let ghost s = input@;
    let ghost m = tokens_until(s, token_start as int, upper as int);
    proof {
        lemma_partition_stitch(s, token_start as int, upper as int);
    }
    let mut tokenizer = Tokenizer::new(input.clone());
    tokenizer.position = token_start;
    let mut results: Vec<Node> = Vec::new();
    proof {
        assert(results@.map_values(|n: Node| n.0@) =~= Seq::<TokenModel>::empty());
        assert(Seq::<TokenModel>::empty() + m.0 =~= m.0);
    }
    loop
        invariant
            tokenizer.wf(),
            tokenizer.buf() == s,
            token_start <= tokenizer.position,
            m.0 == results@.map_values(|n: Node| n.0@) + tokens_until(
                s,
                tokenizer.position as int,
                upper as int,
            ).0,
            m.1 == tokens_until(s, tokenizer.position as int, upper as int).1,
        ensures
            tokenizer.wf(),
            tokenizer.buf() == s,
            m.0 == results@.map_values(|n: Node| n.0@),
            m.1 == tokenizer.position as int,
        decreases s.len() - tokenizer.position,
    {
        if tokenizer.position >= upper {
            proof {
                assert(tokens_until(s, tokenizer.position as int, upper as int).0
                    =~= Seq::<TokenModel>::empty());
                assert(results@.map_values(|n: Node| n.0@) + Seq::<TokenModel>::empty()
                    =~= results@.map_values(|n: Node| n.0@));
            }
            break ;
        }
        let ghost p = tokenizer.position as int;
        let ghost prev = results@;
        proof {
            lemma_lex_step(s, p);
        }
        let n = tokenizer.next();
        match n {
            Some(node) => {
                results.push(node);
                proof {
                    let f = |n: Node| n.0@;
                    let st = lex_step(s, p);
                    let r2 = tokens_until(s, st.end, upper as int);
                    assert(results@ =~= prev.push(node));
                    assert(results@.map_values(f) =~= prev.map_values(f).push(node.0@));
                    assert(prev.map_values(f) + (seq![node.0@] + r2.0) =~= results@.map_values(f)
                        + r2.0);
                }
            },
            None => {
                proof {
                    let f = |n: Node| n.0@;
                    assert(prev.map_values(f) + Seq::<TokenModel>::empty() =~= prev.map_values(f));
                    assert(tokens_until(s, tokenizer.position as int, upper as int).0
                        =~= Seq::<TokenModel>::empty());
                }
                break ;
            },
        }
    }
    (results, tokenizer.position)
}

// ------------------------------------------------------------------
// The driver
// ------------------------------------------------------------------

/// Tokenize by speculation: preprocess, cut the input into `num_iters`
/// partitions, predict where the token at each cut begins, lex every
/// partition from its predicted start, then validate the predictions in
/// order and re-lex every partition whose prediction was wrong, the
/// repaired end standing in for the prediction of its neighbour.
///
/// The speculative result equals the sequential one: the returned nodes
/// carry exactly the token stream of the preprocessed input, for every
/// partition count.
#[verifier::loop_isolation(false)]
pub fn spec_tokenize(input: &str, num_iters: usize) -> (r: (SpecStats, Vec<Node>))
    requires
        num_iters >= 1,
        input@.len() < usize::MAX,
    ensures
        r.1@.map_values(|n: Node| n.0@) == token_stream(preprocess_spec(input@), 0),
        r.0.mispredictions@.len() == num_iters,
        r.0.mispredictions@[0] == false,
        forall|j: int|
            #![trigger r.0.mispredictions@[j]]
            1 <= j < num_iters ==> ({
                let s = preprocess_spec(input@);
                let isz = partition_width(s.len() as int, num_iters as int);
                r.0.mispredictions@[j] == (next_token_start_spec(s, j * isz) != chain_end(
                    s,
                    isz,
                    j - 1,
                ))
            }),
{
    let processed = preprocess(input);
    let ghost s = processed@;
    let css_len = processed.as_str().unicode_len();
    let str_arc = Arc::new(processed);
    let iter_size: usize = css_len / num_iters + (if css_len % num_iters != 0 {
        1
    } else {
        0
    });
    proof {
        vstd::arithmetic::div_mod::lemma_fundamental_div_mod(css_len as int, num_iters as int);
        assert(num_iters * iter_size >= css_len) by (nonlinear_arith)
            requires
                num_iters >= 1,
                iter_size as int == css_len as int / num_iters as int + (if css_len as int
                    % num_iters as int != 0 {
                    1int
                } else {
                    0int
                }),
                css_len as int == num_iters as int * (css_len as int / num_iters as int) + (
                css_len as int % num_iters as int),
                0 <= (css_len as int % num_iters as int),
                (css_len as int % num_iters as int) < num_iters as int,
        ;
    }
    let mut result: Vec<Node> = Vec::new();
    let mut mispredictions: Vec<bool> = Vec::new();
    let mut prev_end: usize = 0;
    let mut i: usize = 0;
    proof {
        assert(result@.map_values(|n: Node| n.0@) =~= Seq::<TokenModel>::empty());
        assert(Seq::<TokenModel>::empty() + token_stream(s, 0) =~= token_stream(s, 0));
    }
    while i < num_iters
        invariant
            i <= num_iters,
            prev_end <= css_len,
            i == 0 ==> prev_end == 0,
            i >= 1 ==> (prev_end as int >= i as int * iter_size as int || prev_end == css_len),
            i >= 1 ==> prev_end as int == chain_end(s, iter_size as int, i - 1),
            mispredictions@.len() == i,
            i >= 1 ==> mispredictions@[0] == false,
            forall|j: int|
                #![trigger mispredictions@[j]]
                1 <= j < i ==> mispredictions@[j] == (next_token_start_spec(
                    s,
                    j * iter_size as int,
                ) != chain_end(s, iter_size as int, j - 1)),
            token_stream(s, 0) == result@.map_values(|n: Node| n.0@) + token_stream(
                s,
                prev_end as int,
            ),
        decreases num_iters - i,
    {
        let ghost prev_res = result@;
        let ghost prev_map = result@.map_values(|n: Node| n.0@);
        let lo: usize = match i.checked_mul(iter_size) {
            Some(x) => x,
            None => css_len,
        };
        let hi: usize = match (i + 1).checked_mul(iter_size) {
            Some(x) => if x < css_len {
                x
            } else {
                css_len
            },
            None => css_len,
        };
        proof {
            if lo as int != i as int * iter_size as int {
                lemma_next_token_start_at_end(s, css_len as int);
                lemma_next_token_start_at_end(s, i as int * iter_size as int);
            }
            assert(hi as int == partition_upper(s.len() as int, iter_size as int, i as int));
        }
        let predicted = next_token_start(str_arc.clone(), lo);
        let speculative = run_partition(&str_arc, predicted, hi);
        if i > 0 && predicted != prev_end {
            mispredictions.push(true);
            let (mut v2, e2) = run_partition(&str_arc, prev_end, hi);
            proof {
                lemma_partition_stitch(s, prev_end as int, hi as int);
                let f = |n: Node| n.0@;
                let t2 = tokens_until(s, prev_end as int, hi as int);
                assert(prev_map + (t2.0 + token_stream(s, t2.1)) =~= (prev_map + t2.0)
                    + token_stream(s, t2.1));
                assert((prev_res + v2@).map_values(f) =~= prev_map + v2@.map_values(f));
            }
            result.append(&mut v2);
            prev_end = e2;
        } else {
            let (mut v1, e1) = speculative;
            proof {
                if i == 0 {
                    lemma_next_token_start_zero(s);
                }
                lemma_partition_stitch(s, prev_end as int, hi as int);
                let f = |n: Node| n.0@;
                let t2 = tokens_until(s, prev_end as int, hi as int);
                assert(prev_map + (t2.0 + token_stream(s, t2.1)) =~= (prev_map + t2.0)
                    + token_stream(s, t2.1));
                assert((prev_res + v1@).map_values(f) =~= prev_map + v1@.map_values(f));
            }
            mispredictions.push(false);
            result.append(&mut v1);
            prev_end = e1;
        }
        i = i + 1;
    }
    proof {
        assert(prev_end == css_len);
        assert(token_stream(s, s.len() as int) =~= Seq::<TokenModel>::empty());
        assert(result@.map_values(|n: Node| n.0@) + Seq::<TokenModel>::empty()
            =~= result@.map_values(|n: Node| n.0@));
    }
    (SpecStats { mispredictions }, result)
}

} // verus!
