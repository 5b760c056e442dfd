//! Generator: a weighted random walk over the transition table with
//! recursive, depth-bounded expansion of function bodies and independent
//! weighted sampling of parameters.

use vstd::prelude::*;
use crate::tokens::{ChainTok, MarkovToken, ParamValueTok, FunctionParamValue, MarkovData};
use crate::builder::{tm_views, sum_counts, fpm_views, fpm_count, trans_count};
use crate::outside::rand_below;

verus! {

/// Only `Word`, `FunctionCall` and `End` tokens are ever emitted.
pub open spec fn emits_wf(t: Seq<(ChainTok, ChainTok, usize)>) -> bool {
    forall|j: int| 0 <= j < t.len()
        ==> ((#[trigger] t[j]).1 is Word || t[j].1 is FunctionCall || t[j].1 is End)
}

/// The transitions usable from context `ctx`: all whose context matches,
/// with function-call transitions discarded once the depth budget is spent.
pub open spec fn cand_of(t: Seq<(ChainTok, ChainTok, usize)>, ctx: ChainTok, allow_calls: bool) -> Seq<(ChainTok, ChainTok, usize)>
    decreases t.len(),
{
    if t.len() == 0 {
        Seq::empty()
    } else {
        let rest = cand_of(t.drop_last(), ctx, allow_calls);
        if t.last().0 == ctx && (allow_calls || !(t.last().1 is FunctionCall)) {
            rest.push(t.last())
        } else {
            rest
        }
    }
}

/// Every candidate has the requested context, respects the depth budget,
/// and emits only what the table emits.
proof fn lemma_cand_entries(t: Seq<(ChainTok, ChainTok, usize)>, ctx: ChainTok, allow_calls: bool)
    requires
        emits_wf(t),
    ensures
        forall|j: int| 0 <= j < cand_of(t, ctx, allow_calls).len()
            ==> {
                let e = #[trigger] cand_of(t, ctx, allow_calls)[j];
                &&& e.0 == ctx
                &&& (allow_calls || !(e.1 is FunctionCall))
                &&& (e.1 is Word || e.1 is FunctionCall || e.1 is End)
            },
    decreases t.len(),
{
    if t.len() > 0 {
        assert(forall|m: int| 0 <= m < t.len() - 1 ==> t.drop_last()[m] == t[m]);
        assert(t.last() == t[t.len() - 1]);
        lemma_cand_entries(t.drop_last(), ctx, allow_calls);
    }
}

/// With the depth budget spent, no candidate is a function call: the
/// generator can never emit one there.
pub proof fn lemma_no_calls_at_depth_zero(t: Seq<(ChainTok, ChainTok, usize)>, ctx: ChainTok)
    ensures
        forall|j: int| 0 <= j < cand_of(t, ctx, false).len()
            ==> !((#[trigger] cand_of(t, ctx, false)[j]).1 is FunctionCall),
    decreases t.len(),
{
    if t.len() > 0 {
        lemma_no_calls_at_depth_zero(t.drop_last(), ctx);
    }
}

/// Gathers the usable transitions for context `ctx`.
fn candidates(tm: &Vec<(MarkovToken, MarkovToken, usize)>, ctx: &MarkovToken, allow_calls: bool) -> (out: Vec<(MarkovToken, MarkovToken, usize)>)
    ensures
        tm_views(out@) == cand_of(tm_views(tm@), ctx@, allow_calls),
{
    let ghost t = tm_views(tm@);
    let mut out: Vec<(MarkovToken, MarkovToken, usize)> = Vec::new();
    let mut i: usize = 0;
    proof {
        assert(tm_views(out@) =~= cand_of(t.take(0), ctx@, allow_calls));
    }
    while i < tm.len()
        invariant
            i <= tm@.len(),
            t == tm_views(tm@),
            tm_views(out@) == cand_of(t.take(i as int), ctx@, allow_calls),
        decreases tm@.len() - i,
    {
        proof {
            assert(t.take(i + 1).drop_last() =~= t.take(i as int));
            assert(t.take(i + 1).last() == t[i as int]);
        }
        let keep = tm[i].0.eq(ctx) && (allow_calls || !(matches!(tm[i].1, MarkovToken::FunctionCall(_))));
        if keep {
            let ghost pre = tm_views(out@);
            let entry = (tm[i].0.dup(), tm[i].1.dup(), tm[i].2);
            out.push(entry);
            proof {
                assert(tm_views(out@) =~= pre.push(t[i as int]));
            }
        }
        i = i + 1;
    }
    proof {
        assert(t.take(tm@.len() as int) =~= t);
    }
    out
}

/// Sums the candidate weights; the result fits a `u128`.
fn total_weight(cands: &Vec<(MarkovToken, MarkovToken, usize)>) -> (t: u128)
    ensures
        t as int == sum_counts(tm_views(cands@)),
{
    let ghost cv = tm_views(cands@);
    let mut t: u128 = 0;
    let mut i: usize = 0;
    while i < cands.len()
        invariant
            i <= cands@.len(),
            cv == tm_views(cands@),
            t as int == sum_counts(cv.take(i as int)),
            t as int <= (i as int) * (usize::MAX as int),
        decreases cands@.len() - i,
    {
        proof {
            assert(cv.take(i + 1).drop_last() =~= cv.take(i as int));
            assert(cv.take(i + 1).last() == cv[i as int]);
        }
        t = t + (cands[i].2 as u128);
        i = i + 1;
    }
    proof {
        assert(cv.take(cands@.len() as int) =~= cv);
    }
    t
}

/// Picks the candidate whose weight band contains the draw `r`: candidate
/// `i` owns exactly the draws from the sum of the earlier weights up to,
/// excluding, that sum plus its own weight — proportional selection.
pub fn pick_weighted(cands: &Vec<(MarkovToken, MarkovToken, usize)>, r: u128) -> (i: usize)
    requires
        (r as int) < sum_counts(tm_views(cands@)),
    ensures
        i < cands@.len(),
        sum_counts(tm_views(cands@).take(i as int)) <= r as int,
        (r as int) < sum_counts(tm_views(cands@).take(i as int)) + cands@[i as int].2,
{
    let ghost cv = tm_views(cands@);
    let n = cands.len();
    let mut acc: u128 = 0;
    let mut i: usize = 0;
    loop
        invariant_except_break
            i <= n,
            n == cands@.len(),
            cv == tm_views(cands@),
            (r as int) < sum_counts(cv),
            acc as int == sum_counts(cv.take(i as int)),
            acc <= r,
        ensures
            i < cands@.len(),
            sum_counts(cv.take(i as int)) <= r as int,
            (r as int) < sum_counts(cv.take(i as int)) + cands@[i as int].2,
        decreases cands@.len() - i,
    {
        proof {
            if i >= cands@.len() {
                assert(cv.take(i as int) =~= cv);
                assert(false);
            }
            assert(cv.take(i + 1).drop_last() =~= cv.take(i as int));
            assert(cv.take(i + 1).last() == cv[i as int]);
            assert(sum_counts(cv.take(i + 1)) == acc as int + cands@[i as int].2);
            lemma_sum_le_len(cv);
            assert((cv.len() as int) * (usize::MAX as int) + (usize::MAX as int)
                < u128::MAX as int) by (nonlinear_arith)
                requires
                    (cv.len() as int) <= usize::MAX as int,
            ;
        }
        let w = cands[i].2 as u128;
        if r < acc + w {
            break;
        }
        acc = acc + w;
        i = i + 1;
        proof {
            lemma_sum_take_le(cv, i as int);
        }
    }
    i
}

/// The table's counts sum to at most one `usize` maximum per entry.
proof fn lemma_sum_le_len(t: Seq<(ChainTok, ChainTok, usize)>)
    ensures
        0 <= sum_counts(t) <= (t.len() as int) * (usize::MAX as int),
    decreases t.len(),
{
    if t.len() > 0 {
        lemma_sum_le_len(t.drop_last());
    }
}

proof fn lemma_pv_sum_le_len(t: Seq<(ParamValueTok, usize)>)
    ensures
        0 <= pv_sum(t) <= (t.len() as int) * (usize::MAX as int),
    decreases t.len(),
{
    if t.len() > 0 {
        lemma_pv_sum_le_len(t.drop_last());
    }
}

/// A prefix of the table never sums to more than the whole table.
proof fn lemma_sum_take_le(t: Seq<(ChainTok, ChainTok, usize)>, j: int)
    requires
        0 <= j <= t.len(),
    ensures
        sum_counts(t.take(j)) <= sum_counts(t),
    decreases t.len(),
{
    if j == t.len() {
        assert(t.take(j) =~= t);
    } else {
        assert(t.take(j) =~= t.drop_last().take(j));
        lemma_sum_take_le(t.drop_last(), j);
    }
}

/// The value states recorded for parameter `key` of function `name`, with
/// their counts, in table order.
pub open spec fn vals_of(t: Seq<(Seq<char>, Seq<char>, ParamValueTok, usize)>, name: Seq<char>, key: Seq<char>) -> Seq<(ParamValueTok, usize)>
    decreases t.len(),
{
    if t.len() == 0 {
        Seq::empty()
    } else {
        let rest = vals_of(t.drop_last(), name, key);
        if t.last().0 == name && t.last().1 == key {
            rest.push((t.last().2, t.last().3))
        } else {
            rest
        }
    }
}

/// The distinct parameter keys recorded for function `name`, in first-seen
/// order.
pub open spec fn keys_of(t: Seq<(Seq<char>, Seq<char>, ParamValueTok, usize)>, name: Seq<char>) -> Seq<Seq<char>>
    decreases t.len(),
{
    if t.len() == 0 {
        Seq::empty()
    } else {
        let rest = keys_of(t.drop_last(), name);
        if t.last().0 == name && !rest.contains(t.last().1) {
            rest.push(t.last().1)
        } else {
            rest
        }
    }
}

/// Views of a value-state list.
pub open spec fn pvs_views(s: Seq<(FunctionParamValue, usize)>) -> Seq<(ParamValueTok, usize)> {
    s.map_values(|e: (FunctionParamValue, usize)| (e.0@, e.1))
}

/// The sum of value-state counts.
pub open spec fn pv_sum(s: Seq<(ParamValueTok, usize)>) -> int
    decreases s.len(),
{
    if s.len() == 0 {
        0
    } else {
        pv_sum(s.drop_last()) + s.last().1
    }
}

/// Gathers the recorded value states of one parameter.
fn values_for(fpm: &Vec<(String, String, FunctionParamValue, usize)>, name: &String, key: &String) -> (out: Vec<(FunctionParamValue, usize)>)
    ensures
        pvs_views(out@) == vals_of(fpm_views(fpm@), name@, key@),
{
    let ghost fv = fpm_views(fpm@);
    let mut out: Vec<(FunctionParamValue, usize)> = Vec::new();
    let mut i: usize = 0;
    proof {
        assert(pvs_views(out@) =~= vals_of(fv.take(0), name@, key@));
    }
    while i < fpm.len()
        invariant
            i <= fpm@.len(),
            fv == fpm_views(fpm@),
            pvs_views(out@) == vals_of(fv.take(i as int), name@, key@),
        decreases fpm@.len() - i,
    {
        proof {
            assert(fv.take(i + 1).drop_last() =~= fv.take(i as int));
            assert(fv.take(i + 1).last() == fv[i as int]);
        }
        if fpm[i].0.eq(name) && fpm[i].1.eq(key) {
            let ghost pre = pvs_views(out@);
            out.push((fpm[i].2.dup(), fpm[i].3));
            proof {
                assert(pvs_views(out@) =~= pre.push((fv[i as int].2, fv[i as int].3)));
            }
        }
        i = i + 1;
    }
    proof {
        assert(fv.take(fpm@.len() as int) =~= fv);
    }
    out
}

/// Gathers the distinct parameter keys of one function, in first-seen order.
fn keys_for(fpm: &Vec<(String, String, FunctionParamValue, usize)>, name: &String) -> (out: Vec<String>)
    ensures
        crate::builder::strs_views(out@) == keys_of(fpm_views(fpm@), name@),
{
    let ghost fv = fpm_views(fpm@);
    let mut out: Vec<String> = Vec::new();
    let mut i: usize = 0;
    proof {
        assert(crate::builder::strs_views(out@) =~= keys_of(fv.take(0), name@));
    }
    while i < fpm.len()
        invariant
            i <= fpm@.len(),
            fv == fpm_views(fpm@),
            crate::builder::strs_views(out@) == keys_of(fv.take(i as int), name@),
        decreases fpm@.len() - i,
    {
        proof {
            assert(fv.take(i + 1).drop_last() =~= fv.take(i as int));
            assert(fv.take(i + 1).last() == fv[i as int]);
        }
        if fpm[i].0.eq(name) {
            let ghost pre = crate::builder::strs_views(out@);
            let mut seen = false;
            let mut m: usize = 0;
            while m < out.len()
                invariant_except_break
                    m <= out@.len(),
                    !seen,
                    pre == crate::builder::strs_views(out@),
                    fv == fpm_views(fpm@),
                    i < fpm@.len(),
                    forall|q: int| 0 <= q < m ==> pre[q] != fv[i as int].1,
                ensures
                    pre == crate::builder::strs_views(out@),
                    fv == fpm_views(fpm@),
                    i < fpm@.len(),
                    seen ==> pre.contains(fv[i as int].1),
                    !seen ==> !pre.contains(fv[i as int].1),
                decreases out@.len() - m,
            {
                if out[m].eq(&fpm[i].1) {
                    seen = true;
                    proof {
                        assert(pre[m as int] == fv[i as int].1);
                    }
                    break;
                }
                m = m + 1;
            }
            if !seen {
                out.push(fpm[i].1.clone());
                proof {
                    assert(crate::builder::strs_views(out@) =~= pre.push(fv[i as int].1));
                }
            }
        }
        i = i + 1;
    }
    proof {
        assert(fv.take(fpm@.len() as int) =~= fv);
    }
    out
}

/// Sums the value-state weights.
fn total_weight_vals(vals: &Vec<(FunctionParamValue, usize)>) -> (t: u128)
    ensures
        t as int == pv_sum(pvs_views(vals@)),
{
    let ghost cv = pvs_views(vals@);
    let mut t: u128 = 0;
    let mut i: usize = 0;
    while i < vals.len()
        invariant
            i <= vals@.len(),
            cv == pvs_views(vals@),
            t as int == pv_sum(cv.take(i as int)),
            t as int <= (i as int) * (usize::MAX as int),
        decreases vals@.len() - i,
    {
        proof {
            assert(cv.take(i + 1).drop_last() =~= cv.take(i as int));
            assert(cv.take(i + 1).last() == cv[i as int]);
        }
        t = t + (vals[i].1 as u128);
        i = i + 1;
    }
    proof {
        assert(cv.take(vals@.len() as int) =~= cv);
    }
    t
}

proof fn lemma_pv_sum_take_le(t: Seq<(ParamValueTok, usize)>, j: int)
    requires
        0 <= j <= t.len(),
    ensures
        pv_sum(t.take(j)) <= pv_sum(t),
    decreases t.len(),
{
    if j == t.len() {
        assert(t.take(j) =~= t);
    } else {
        assert(t.take(j) =~= t.drop_last().take(j));
        lemma_pv_sum_take_le(t.drop_last(), j);
    }
}

/// Picks the value state whose weight band contains the draw `r`.
pub fn pick_weighted_vals(vals: &Vec<(FunctionParamValue, usize)>, r: u128) -> (i: usize)
    requires
        (r as int) < pv_sum(pvs_views(vals@)),
    ensures
        i < vals@.len(),
        pv_sum(pvs_views(vals@).take(i as int)) <= r as int,
        (r as int) < pv_sum(pvs_views(vals@).take(i as int)) + vals@[i as int].1,
{
    let ghost cv = pvs_views(vals@);
    let n = vals.len();
    let mut acc: u128 = 0;
    let mut i: usize = 0;
    loop
        invariant_except_break
            i <= n,
            n == vals@.len(),
            cv == pvs_views(vals@),
            (r as int) < pv_sum(cv),
            acc as int == pv_sum(cv.take(i as int)),
            acc <= r,
        ensures
            i < vals@.len(),
            pv_sum(cv.take(i as int)) <= r as int,
            (r as int) < pv_sum(cv.take(i as int)) + vals@[i as int].1,
        decreases vals@.len() - i,
    {
        proof {
            if i >= vals@.len() {
                assert(cv.take(i as int) =~= cv);
                assert(false);
            }
            assert(cv.take(i + 1).drop_last() =~= cv.take(i as int));
            assert(cv.take(i + 1).last() == cv[i as int]);
            assert(pv_sum(cv.take(i + 1)) == acc as int + vals@[i as int].1);
            lemma_pv_sum_le_len(cv);
            assert((cv.len() as int) * (usize::MAX as int) + (usize::MAX as int)
                < u128::MAX as int) by (nonlinear_arith)
                requires
                    (cv.len() as int) <= usize::MAX as int,
            ;
        }
        let w = vals[i].1 as u128;
        if r < acc + w {
            break;
        }
        acc = acc + w;
        i = i + 1;
        proof {
            lemma_pv_sum_take_le(cv, i as int);
        }
    }
    i
}

/// Synthesizes one document by a weighted random walk from `first_token`.
///
/// The output is a lawful walk over the model ([`possible_walk`]): the
/// draw-order concatenation of words and function expansions, each drawn
/// from a positive-count transition whose context is the state reached so
/// far. A drawn word appends its text and becomes the context; a drawn
/// call appends `$[name`, one weighted parameter rendition per known key
/// in first-seen order, a space, a recursive walk of the body sub-chain at
/// one depth less, and `]`, and the context becomes the call. At depth
/// zero no call is a candidate, so none is expanded. An exhausted
/// candidate set, a drawn `End`, or a spent step budget ends the current
/// sub-chain, returning the text accumulated so far; each emitted token
/// consumes one step, so the walk returns in finite steps for any model.
pub fn sim(first_token: &MarkovToken, data: &MarkovData, limited_depth: usize, step_budget: usize) -> (out: String)
    requires
        emits_wf(tm_views(data.token_map@)),
    ensures
        possible_walk(tm_views(data.token_map@), fpm_views(data.function_param_map@),
            first_token@, limited_depth as nat, out@),
        sum_counts(cand_of(tm_views(data.token_map@), first_token@, limited_depth > 0)) == 0
            ==> out@ == Seq::<char>::empty(),
        step_budget == 0 ==> out@ == Seq::<char>::empty(),
    decreases limited_depth,
{
    let ghost t = tm_views(data.token_map@);
    let ghost p = fpm_views(data.function_param_map@);
    let ghost c0 = first_token@;
    let ghost d = limited_depth as nat;
    let mut result = String::new();
    let mut current = first_token.dup();
    let mut steps = step_budget;
    let ghost mut trace: Seq<(ChainTok, Seq<char>)> = Seq::empty();
    proof {
        assert(result@ =~= Seq::<char>::empty());
        assert(chain_text(trace) =~= Seq::<char>::empty());
    }
    while steps > 0
        invariant
            emits_wf(t),
            t == tm_views(data.token_map@),
            p == fpm_views(data.function_param_map@),
            d == limited_depth as nat,
            c0 == first_token@,
            step_budget == 0 ==> steps == 0,
            chain_ok(t, p, c0, d, trace),
            result@ == chain_text(trace),
            chain_end(c0, trace) == current@,
            trace.len() == 0 ==> result@ == Seq::<char>::empty() && current@ == c0,
            step_budget == 0 ==> trace.len() == 0,
            sum_counts(cand_of(t, c0, limited_depth > 0)) == 0 ==> trace.len() == 0,
        decreases steps,
    {
        steps = steps - 1;
        let allow = limited_depth > 0;
        let cands = candidates(&data.token_map, &current, allow);
        proof {
            lemma_cand_entries(t, current@, allow);
        }
        let total = total_weight(&cands);
        if total == 0 {
            proof {
                assert(chain_ok(t, p, c0, d, trace));
                assert(result@ == chain_text(trace));
                assert(possible_walk(t, p, c0, d, result@));
            }
            return result;
        }
        proof {
            // a zero-weight candidate set at the start context would have
            // ended the walk on its first iteration
            if sum_counts(cand_of(t, c0, limited_depth > 0)) == 0 {
                assert(trace.len() == 0);
                assert(current@ == c0);
                assert(total as int == sum_counts(cand_of(t, current@, allow)));
                assert(false);
            }
        }
        let r = rand_below(total);
        let idx = pick_weighted(&cands, r);
        proof {
            // the drawn candidate's weight band is non-empty, so its
            // transition has a positive count at the current context
            lemma_cand_positive(t, current@, allow, idx as int);
            assert(tm_views(cands@)[idx as int].2 > 0);
            assert(tm_views(cands@)[idx as int].0 == current@);
            assert(trans_count(t, current@, tm_views(cands@)[idx as int].1) > 0);
        }
        match &cands[idx].1 {
            MarkovToken::Word(w) => {
                let ghost step = (ChainTok::Word(w@), w@);
                proof {
                    assert(step_ok(t, p, current@, d, step));
                    lemma_chain_push(t, p, c0, d, trace, step);
                    trace = trace.push(step);
                }
                result.append(w.as_str());
                current = MarkovToken::Word(w.clone());
            },
            MarkovToken::FunctionCall(name) => {
                proof {
                    assert(tm_views(cands@)[idx as int].1 is FunctionCall);
                    assert(allow);
                    reveal_strlit("$[");
                    reveal_strlit(" ");
                    reveal_strlit("]");
                    assert("$["@ =~= seq!['$', '[']);
                    assert(" "@ =~= seq![' ']);
                    assert("]"@ =~= seq![']']);
                }
                let ghost base = result@;
                result.append("$[");
                result.append(name.as_str());
                let keys = keys_for(&data.function_param_map, name);
                let ghost kv = keys_of(p, name@);
                let ghost pbase = result@;
                let ghost mut ptext: Seq<char> = Seq::empty();
                let mut first_param = true;
                let mut ki: usize = 0;
                proof {
                    assert(kv.skip(0) =~= kv);
                    assert(result@ =~= pbase + ptext);
                    assert forall|rest: Seq<char>|
                        #[trigger] params_render(p, name@, kv.skip(0), true, rest)
                            implies params_render(p, name@, kv, true, ptext + rest) by {
                        assert(ptext + rest =~= rest);
                    }
                }
                while ki < keys.len()
                    invariant
                        ki <= keys@.len(),
                        p == fpm_views(data.function_param_map@),
                        kv == keys_of(p, name@),
                        crate::builder::strs_views(keys@) == kv,
                        result@ == pbase + ptext,
                        forall|rest: Seq<char>|
                            #[trigger] params_render(p, name@, kv.skip(ki as int), first_param, rest)
                                ==> params_render(p, name@, kv, true, ptext + rest),
                    decreases keys.len() - ki,
                {
                    let ghost krem = kv.skip(ki as int);
                    let ghost key = kv[ki as int];
                    let ghost fp0 = first_param;
                    proof {
                        reveal_strlit(".");
                        reveal_strlit(",");
                        reveal_strlit("=");
                        assert("."@ =~= seq!['.']);
                        assert(","@ =~= seq![',']);
                        assert("="@ =~= seq!['=']);
                        assert(sep_text(true) =~= "."@);
                        assert(sep_text(false) =~= ","@);
                        assert(krem[0] == key);
                        assert(krem.drop_first() =~= kv.skip(ki + 1));
                        assert(keys@[ki as int]@ == key);
                    }
                    let vals = values_for(&data.function_param_map, name, &keys[ki]);
                    let vt = total_weight_vals(&vals);
                    let ghost mut piece: Seq<char> = Seq::empty();
                    if vt > 0 {
                        let r2 = rand_below(vt);
                        let vi = pick_weighted_vals(&vals, r2);
                        proof {
                            // the drawn value state has a positive count
                            lemma_vals_positive(p, name@, key, vi as int);
                            assert(pvs_views(vals@)[vi as int].1 > 0);
                            assert(fpm_count(p, name@, key, pvs_views(vals@)[vi as int].0) > 0);
                        }
                        match &vals[vi].0 {
                            FunctionParamValue::Absent => {
                                proof {
                                    assert(fpm_count(p, name@, key, ParamValueTok::Absent) > 0);
                                    assert(result@ =~= pbase + (ptext + piece));
                                    assert forall|rest: Seq<char>|
                                        #[trigger] params_render(p, name@, kv.skip(ki + 1), first_param, rest)
                                            implies params_render(p, name@, krem, fp0, piece + rest) by {
                                        assert(piece + rest =~= rest);
                                        assert(params_render(p, name@, krem.drop_first(), fp0, piece + rest));
                                    }
                                }
                            },
                            FunctionParamValue::PresentNoValue => {
                                if first_param {
                                    result.append(".");
                                } else {
                                    result.append(",");
                                }
                                first_param = false;
                                result.append(keys[ki].as_str());
                                proof {
                                    piece = bare_part(fp0, key);
                                    assert(result@ =~= pbase + (ptext + piece));
                                    assert(fpm_count(p, name@, key, ParamValueTok::PresentNoValue) > 0);
                                    assert forall|rest: Seq<char>|
                                        #[trigger] params_render(p, name@, kv.skip(ki + 1), first_param, rest)
                                            implies params_render(p, name@, krem, fp0, piece + rest) by {
                                        assert(params_render(p, name@, krem.drop_first(), false, rest));
                                        assert(piece + rest =~= bare_part(fp0, krem[0]) + rest);
                                    }
                                }
                            },
                            FunctionParamValue::PresentWithValue(v) => {
                                if first_param {
                                    result.append(".");
                                } else {
                                    result.append(",");
                                }
                                first_param = false;
                                result.append(keys[ki].as_str());
                                result.append("=");
                                result.append(v.as_str());
                                proof {
                                    piece = valued_part(fp0, key, v@);
                                    assert(result@ =~= pbase + (ptext + piece));
                                    assert(fpm_count(p, name@, key,
                                        ParamValueTok::PresentWithValue(v@)) > 0);
                                    assert forall|rest: Seq<char>|
                                        #[trigger] params_render(p, name@, kv.skip(ki + 1), first_param, rest)
                                            implies params_render(p, name@, krem, fp0, piece + rest) by {
                                        assert(params_render(p, name@, krem.drop_first(), false, rest));
                                        assert(piece + rest =~= valued_part(fp0, krem[0], v@) + rest);
                                    }
                                }
                            },
                        }
                    } else {
                        proof {
                            assert(pv_sum(vals_of(p, name@, key)) == 0);
                            assert(result@ =~= pbase + (ptext + piece));
                            assert forall|rest: Seq<char>|
                                #[trigger] params_render(p, name@, kv.skip(ki + 1), first_param, rest)
                                    implies params_render(p, name@, krem, fp0, piece + rest) by {
                                assert(piece + rest =~= rest);
                                assert(params_render(p, name@, krem.drop_first(), fp0, piece + rest));
                            }
                        }
                    }
                    proof {
                        // prepend this key's outcome to the rendition built so far
                        assert forall|rest: Seq<char>|
                            #[trigger] params_render(p, name@, kv.skip(ki + 1), first_param, rest)
                                implies params_render(p, name@, kv, true, (ptext + piece) + rest) by {
                            assert(params_render(p, name@, krem, fp0, piece + rest));
                            assert((ptext + piece) + rest =~= ptext + (piece + rest));
                        }
                        ptext = ptext + piece;
                        assert(result@ == pbase + ptext);
                    }
                    ki = ki + 1;
                }
                proof {
                    assert(kv.skip(keys@.len() as int) =~= Seq::<Seq<char>>::empty());
                    assert(params_render(p, name@, kv.skip(keys@.len() as int), first_param,
                        Seq::<char>::empty()));
                    assert(params_render(p, name@, kv, true, ptext + Seq::<char>::empty()));
                    assert(ptext + Seq::<char>::empty() =~= ptext);
                    assert(params_render(p, name@, keys_of(p, name@), true, ptext));
                }
                result.append(" ");
                let sub = sim(&MarkovToken::FunctionBody(name.clone()), data, limited_depth - 1, steps);
                result.append(sub.as_str());
                result.append("]");
                let ghost step = (ChainTok::FunctionCall(name@), call_text(name@, ptext, sub@));
                proof {
                    assert((d - 1) as nat == (limited_depth - 1) as nat);
                    assert(possible_walk(t, p, ChainTok::FunctionBody(name@), (d - 1) as nat, sub@));
                    assert(step.1 == call_text(name@, ptext, sub@));
                    assert(step_ok(t, p, current@, d, step));
                    assert(result@ =~= base + call_text(name@, ptext, sub@));
                    lemma_chain_push(t, p, c0, d, trace, step);
                    trace = trace.push(step);
                }
                current = MarkovToken::FunctionCall(name.clone());
            },
            MarkovToken::End => {
                proof {
                    assert(chain_ok(t, p, c0, d, trace));
                    assert(result@ == chain_text(trace));
                    assert(possible_walk(t, p, c0, d, result@));
                }
                return result;
            },
            _ => {
                proof {
                    assert(tm_views(cands@)[idx as int].1 is Word
                        || tm_views(cands@)[idx as int].1 is FunctionCall
                        || tm_views(cands@)[idx as int].1 is End);
                    assert(false);
                }
                return result;
            },
        }
    }
    proof {
        assert(chain_ok(t, p, c0, d, trace));
        assert(result@ == chain_text(trace));
        assert(possible_walk(t, p, c0, d, result@));
    }
    result
}

} // verus!

verus! {

/// Separator before a rendered parameter: `.` before the first, `,` later.
pub open spec fn sep_text(first: bool) -> Seq<char> {
    if first {
        seq!['.']
    } else {
        seq![',']
    }
}

/// The rendition of a parameter without a value, behind its separator.
pub open spec fn bare_part(first: bool, key: Seq<char>) -> Seq<char> {
    sep_text(first) + key
}

/// The rendition of a parameter with a value, behind its separator.
pub open spec fn valued_part(first: bool, key: Seq<char>, v: Seq<char>) -> Seq<char> {
    sep_text(first) + key + seq!['='] + v
}

/// The full text of one function expansion: the open marker, the parameter
/// rendition, the trailing space, the body's text, and the close marker.
pub open spec fn call_text(name: Seq<char>, ptext: Seq<char>, body: Seq<char>) -> Seq<char> {
    seq!['$', '['] + name + ptext + seq![' '] + body + seq![']']
}

/// A valid rendition of the parameters of one `name` expansion: the keys
/// are taken in the given order; each is skipped (lawful where `Absent` has
/// a positive count or the key's counts sum to zero) or rendered as `key`
/// (a positive `PresentNoValue` count) or `key=value` (a positive
/// `PresentWithValue` count), comma-joined behind a leading dot.
pub open spec fn params_render(
    p: Seq<(Seq<char>, Seq<char>, ParamValueTok, usize)>,
    name: Seq<char>,
    keys: Seq<Seq<char>>,
    first: bool,
    text: Seq<char>,
) -> bool
    decreases keys.len(),
{
    if keys.len() == 0 {
        text == Seq::<char>::empty()
    } else {
        ||| {
            &&& (fpm_count(p, name, keys[0], ParamValueTok::Absent) > 0
                || pv_sum(vals_of(p, name, keys[0])) == 0)
            &&& params_render(p, name, keys.drop_first(), first, text)
        }
        ||| (exists|rest: Seq<char>|
            #![trigger bare_part(first, keys[0]) + rest]
            fpm_count(p, name, keys[0], ParamValueTok::PresentNoValue) > 0
                && text == bare_part(first, keys[0]) + rest
                && params_render(p, name, keys.drop_first(), false, rest))
        ||| (exists|v: Seq<char>, rest: Seq<char>|
            #![trigger valued_part(first, keys[0], v) + rest]
            fpm_count(p, name, keys[0], ParamValueTok::PresentWithValue(v)) > 0
                && text == valued_part(first, keys[0], v) + rest
                && params_render(p, name, keys.drop_first(), false, rest))
    }
}

/// One lawful walk step from context `c`: the emitted token (which becomes
/// the next context) and the text it appends. A drawn word appends its
/// text; a drawn call — possible only while the depth budget lasts —
/// appends `$[name`, a parameter rendition, a space, a lawful walk of the
/// body sub-chain at one depth less, and `]`. Every draw needs a
/// positive-count transition.
pub open spec fn step_ok(
    t: Seq<(ChainTok, ChainTok, usize)>,
    p: Seq<(Seq<char>, Seq<char>, ParamValueTok, usize)>,
    c: ChainTok,
    d: nat,
    step: (ChainTok, Seq<char>),
) -> bool
    decreases d, 0nat, 0nat,
{
    match step.0 {
        ChainTok::Word(w) => {
            &&& trans_count(t, c, ChainTok::Word(w)) > 0
            &&& step.1 == w
        },
        ChainTok::FunctionCall(name) => {
            &&& d >= 1
            &&& trans_count(t, c, ChainTok::FunctionCall(name)) > 0
            &&& (exists|ptext: Seq<char>, body: Seq<char>|
                #![trigger call_text(name, ptext, body)]
                params_render(p, name, keys_of(p, name), true, ptext)
                    && possible_walk(t, p, ChainTok::FunctionBody(name), (d - 1) as nat, body)
                    && step.1 == call_text(name, ptext, body))
        },
        _ => false,
    }
}

/// A lawful chain of walk steps from context `c`: each step draws from the
/// context the previous step emitted.
pub open spec fn chain_ok(
    t: Seq<(ChainTok, ChainTok, usize)>,
    p: Seq<(Seq<char>, Seq<char>, ParamValueTok, usize)>,
    c: ChainTok,
    d: nat,
    chain: Seq<(ChainTok, Seq<char>)>,
) -> bool
    decreases d, 1nat, chain.len(),
{
    if chain.len() == 0 {
        true
    } else {
        &&& step_ok(t, p, c, d, chain[0])
        &&& chain_ok(t, p, chain[0].0, d, chain.drop_first())
    }
}

/// The text of a chain of walk steps, in draw order.
pub open spec fn chain_text(chain: Seq<(ChainTok, Seq<char>)>) -> Seq<char>
    decreases chain.len(),
{
    if chain.len() == 0 {
        Seq::empty()
    } else {
        chain[0].1 + chain_text(chain.drop_first())
    }
}

/// The context a chain ends in.
pub open spec fn chain_end(c: ChainTok, chain: Seq<(ChainTok, Seq<char>)>) -> ChainTok {
    if chain.len() == 0 {
        c
    } else {
        chain.last().0
    }
}

/// `out` is a text the generator may produce from context `c` with depth
/// budget `d`: the draw-order concatenation of the texts of some lawful
/// chain of positive-count draws, stopped anywhere (a drawn `End`, an
/// exhausted candidate set, or a spent step budget all end a sub-chain).
pub open spec fn possible_walk(
    t: Seq<(ChainTok, ChainTok, usize)>,
    p: Seq<(Seq<char>, Seq<char>, ParamValueTok, usize)>,
    c: ChainTok,
    d: nat,
    out: Seq<char>,
) -> bool
    decreases d, 2nat, 0nat,
{
    exists|chain: Seq<(ChainTok, Seq<char>)>|
        #![trigger chain_text(chain)]
        chain_ok(t, p, c, d, chain) && out == chain_text(chain)
}

/// Appending one lawful step from the chain's end keeps the chain lawful
/// and appends the step's text.
proof fn lemma_chain_push(
    t: Seq<(ChainTok, ChainTok, usize)>,
    p: Seq<(Seq<char>, Seq<char>, ParamValueTok, usize)>,
    c: ChainTok,
    d: nat,
    chain: Seq<(ChainTok, Seq<char>)>,
    step: (ChainTok, Seq<char>),
)
    requires
        chain_ok(t, p, c, d, chain),
        step_ok(t, p, chain_end(c, chain), d, step),
    ensures
        chain_ok(t, p, c, d, chain.push(step)),
        chain_text(chain.push(step)) == chain_text(chain) + step.1,
        chain_end(c, chain.push(step)) == step.0,
    decreases chain.len(),
{
    if chain.len() == 0 {
        assert(chain.push(step)[0] == step);
        assert(chain.push(step).drop_first() =~= Seq::<(ChainTok, Seq<char>)>::empty());
        assert(chain_ok(t, p, step.0, d, Seq::<(ChainTok, Seq<char>)>::empty()));
        assert(chain_ok(t, p, c, d, chain.push(step)));
        assert(chain_text(Seq::<(ChainTok, Seq<char>)>::empty()) =~= Seq::<char>::empty());
        assert(chain_text(chain.push(step)) =~= step.1);
        assert(chain_text(chain) =~= Seq::<char>::empty());
        assert(chain_text(chain) + step.1 =~= step.1);
    } else {
        assert(chain.push(step)[0] == chain[0]);
        assert(chain.push(step).drop_first() =~= chain.drop_first().push(step));
        assert(chain_end(chain[0].0, chain.drop_first()) == chain_end(c, chain));
        lemma_chain_push(t, p, chain[0].0, d, chain.drop_first(), step);
        assert(chain_ok(t, p, c, d, chain.push(step)));
        assert(chain_text(chain) + step.1
            =~= chain[0].1 + (chain_text(chain.drop_first()) + step.1));
    }
}

/// Counts are nonnegative.
proof fn lemma_trans_count_nonneg(t: Seq<(ChainTok, ChainTok, usize)>, c: ChainTok, e: ChainTok)
    ensures
        trans_count(t, c, e) >= 0,
    decreases t.len(),
{
    if t.len() > 0 {
        lemma_trans_count_nonneg(t.drop_last(), c, e);
    }
}

proof fn lemma_fpm_count_nonneg(
    p: Seq<(Seq<char>, Seq<char>, ParamValueTok, usize)>,
    name: Seq<char>,
    key: Seq<char>,
    pv: ParamValueTok,
)
    ensures
        fpm_count(p, name, key, pv) >= 0,
    decreases p.len(),
{
    if p.len() > 0 {
        lemma_fpm_count_nonneg(p.drop_last(), name, key, pv);
    }
}

/// A candidate's count is covered by the table's count for its pair.
proof fn lemma_cand_positive(
    t: Seq<(ChainTok, ChainTok, usize)>,
    ctx: ChainTok,
    allow_calls: bool,
    j: int,
)
    requires
        0 <= j < cand_of(t, ctx, allow_calls).len(),
    ensures
        trans_count(t, cand_of(t, ctx, allow_calls)[j].0, cand_of(t, ctx, allow_calls)[j].1)
            >= cand_of(t, ctx, allow_calls)[j].2,
    decreases t.len(),
{
    if t.len() > 0 {
        let rest = cand_of(t.drop_last(), ctx, allow_calls);
        if j < rest.len() {
            lemma_cand_positive(t.drop_last(), ctx, allow_calls, j);
        } else {
            lemma_trans_count_nonneg(t.drop_last(), t.last().0, t.last().1);
        }
    }
}

/// A value-state entry's count is covered by the table's count for its
/// triple.
proof fn lemma_vals_positive(
    p: Seq<(Seq<char>, Seq<char>, ParamValueTok, usize)>,
    name: Seq<char>,
    key: Seq<char>,
    j: int,
)
    requires
        0 <= j < vals_of(p, name, key).len(),
    ensures
        fpm_count(p, name, key, vals_of(p, name, key)[j].0) >= vals_of(p, name, key)[j].1,
    decreases p.len(),
{
    if p.len() > 0 {
        let rest = vals_of(p.drop_last(), name, key);
        if j < rest.len() {
            lemma_vals_positive(p.drop_last(), name, key, j);
        } else {
            lemma_fpm_count_nonneg(p.drop_last(), name, key, p.last().2);
        }
    }
}

} // verus!


verus! {

/// With the depth budget spent, every step of a lawful chain draws a word
/// and appends exactly that word's text: a depth-zero walk emits no
/// function markup of its own.
pub proof fn lemma_depth_zero_chain_words(
    t: Seq<(ChainTok, ChainTok, usize)>,
    p: Seq<(Seq<char>, Seq<char>, ParamValueTok, usize)>,
    c: ChainTok,
    chain: Seq<(ChainTok, Seq<char>)>,
)
    requires
        chain_ok(t, p, c, 0 as nat, chain),
    ensures
        forall|j: int| 0 <= j < chain.len() ==> (#[trigger] chain[j]).0 is Word,
        forall|j: int| 0 <= j < chain.len()
            ==> (#[trigger] chain[j]).1 == chain[j].0->Word_0,
    decreases chain.len(),
{
    if chain.len() > 0 {
        assert(step_ok(t, p, c, 0 as nat, chain[0]));
        match chain[0].0 {
            ChainTok::Word(w) => {
                assert(chain[0].1 == w);
            },
            _ => {
                assert(false);
            },
        }
        lemma_depth_zero_chain_words(t, p, chain[0].0, chain.drop_first());
        assert forall|j: int| 0 <= j < chain.len() implies (#[trigger] chain[j]).0 is Word by {
            if j > 0 {
                assert(chain.drop_first()[j - 1] == chain[j]);
            }
        }
        assert forall|j: int| 0 <= j < chain.len()
            implies (#[trigger] chain[j]).1 == chain[j].0->Word_0 by {
            if j > 0 {
                assert(chain.drop_first()[j - 1] == chain[j]);
            }
        }
    }
}

} // verus!
