//! Model builder: folds repaired, merged and word-segmented token streams
//! into the transition and parameter frequency tables.

use vstd::prelude::*;
use crate::tokens::{ChainTok, MarkovToken, ParamValueTok, FunctionParamValue, MarkovData};
use crate::lexer::{args_views, distinct_keys, views, Tok, MkToken};

verus! {

/// Mathematical model of a [`DocToken`].
pub enum DTok {
    Emoji(Seq<char>),
    FunctionOpen { name: Seq<char>, args: Seq<(Seq<char>, Option<Seq<char>>)> },
    FunctionClose,
    Words(Seq<Seq<char>>),
}

/// A document token ready for model building: as a lexical token, but with
/// each literal run already split into word units by the segmenter.
#[derive(Debug)]
pub enum DocToken {
    Emoji(String),
    FunctionOpen { name: String, args: Vec<(String, Option<String>)> },
    FunctionClose,
    Words(Vec<String>),
}

/// Views of a word list.
pub open spec fn strs_views(s: Seq<String>) -> Seq<Seq<char>> {
    s.map_values(|w: String| w@)
}

impl View for DocToken {
    type V = DTok;

    open spec fn view(&self) -> DTok {
        match self {
            DocToken::Emoji(s) => DTok::Emoji(s@),
            DocToken::FunctionOpen { name, args } => DTok::FunctionOpen {
                name: name@,
                args: args_views(args@),
            },
            DocToken::FunctionClose => DTok::FunctionClose,
            DocToken::Words(ws) => DTok::Words(strs_views(ws@)),
        }
    }
}

impl Clone for DocToken {
    /// The copy has the same model.
    fn clone(&self) -> (r: Self)
        ensures
            r@ == self@,
    {
        match self {
            DocToken::Emoji(s) => DocToken::Emoji(s.clone()),
            DocToken::FunctionOpen { name, args } => DocToken::FunctionOpen {
                name: name.clone(),
                args: crate::lexer::clone_args(args),
            },
            DocToken::FunctionClose => DocToken::FunctionClose,
            DocToken::Words(ws) => DocToken::Words(clone_strings(ws)),
        }
    }
}

/// Views of a document token stream.
pub open spec fn dviews(ts: Seq<DocToken>) -> Seq<DTok> {
    ts.map_values(|t: DocToken| t@)
}

/// A stack walk over a document stream started at depth `d` never
/// underflows.
pub open spec fn scan_okd(s: Seq<DTok>, d: int) -> bool
    decreases s.len(),
{
    if s.len() == 0 {
        true
    } else {
        match s[0] {
            DTok::FunctionOpen { .. } => scan_okd(s.drop_first(), d + 1),
            DTok::FunctionClose => d > 0 && scan_okd(s.drop_first(), d - 1),
            _ => scan_okd(s.drop_first(), d),
        }
    }
}

/// Every function-open token of the document carries a duplicate-free
/// argument list.
pub open spec fn doc_args_wf(s: Seq<DTok>) -> bool {
    forall|j: int| 0 <= j < s.len() ==> ((#[trigger] s[j]) matches DTok::FunctionOpen { args, .. }
        ==> distinct_keys(args))
}

/// The transitions recorded for one literal run: one per word, chaining
/// word to word.
pub open spec fn word_trans(ctx: ChainTok, ws: Seq<Seq<char>>) -> Seq<(ChainTok, ChainTok)>
    decreases ws.len(),
{
    if ws.len() == 0 {
        Seq::empty()
    } else {
        seq![(ctx, ChainTok::Word(ws[0]))] + word_trans(ChainTok::Word(ws[0]), ws.drop_first())
    }
}

/// The context after a literal run.
pub open spec fn word_ctx(ctx: ChainTok, ws: Seq<Seq<char>>) -> ChainTok {
    if ws.len() == 0 {
        ctx
    } else {
        ChainTok::Word(ws.last())
    }
}

/// All transitions recorded for one document from context `ctx` with the
/// given stack of open function names, ending with the closing transition
/// to `End`. Meaningful where the stack walk never underflows.
pub open spec fn doc_trans(doc: Seq<DTok>, ctx: ChainTok, stack: Seq<Seq<char>>) -> Seq<(ChainTok, ChainTok)>
    decreases doc.len(),
{
    if doc.len() == 0 {
        seq![(ctx, ChainTok::End)]
    } else {
        match doc[0] {
            DTok::Emoji(e) => seq![(ctx, ChainTok::Word(e))]
                + doc_trans(doc.drop_first(), ChainTok::Word(e), stack),
            DTok::FunctionOpen { name, .. } => seq![(ctx, ChainTok::FunctionCall(name))]
                + doc_trans(doc.drop_first(), ChainTok::FunctionBody(name), stack.push(name)),
            DTok::FunctionClose => if stack.len() > 0 {
                seq![(ctx, ChainTok::End)]
                    + doc_trans(doc.drop_first(), ChainTok::FunctionCall(stack.last()), stack.drop_last())
            } else {
                seq![(ctx, ChainTok::End)] + doc_trans(doc.drop_first(), ctx, stack)
            },
            DTok::Words(ws) => word_trans(ctx, ws)
                + doc_trans(doc.drop_first(), word_ctx(ctx, ws), stack),
        }
    }
}

/// The function invocations of one document, in order: name and arguments.
pub open spec fn doc_calls(doc: Seq<DTok>) -> Seq<(Seq<char>, Seq<(Seq<char>, Option<Seq<char>>)>)>
    decreases doc.len(),
{
    if doc.len() == 0 {
        Seq::empty()
    } else {
        match doc[0] {
            DTok::FunctionOpen { name, args } => seq![(name, args)] + doc_calls(doc.drop_first()),
            _ => doc_calls(doc.drop_first()),
        }
    }
}

/// Views of a transition table.
pub open spec fn tm_views(s: Seq<(MarkovToken, MarkovToken, usize)>) -> Seq<(ChainTok, ChainTok, usize)> {
    s.map_values(|e: (MarkovToken, MarkovToken, usize)| (e.0@, e.1@, e.2))
}

/// One table entry's contribution to the count of pair `(c, e)`.
pub open spec fn entry_part(entry: (ChainTok, ChainTok, usize), c: ChainTok, e: ChainTok) -> int {
    if entry.0 == c && entry.1 == e {
        entry.2 as int
    } else {
        0
    }
}

/// The total recorded count of transition `(c, e)`.
pub open spec fn trans_count(t: Seq<(ChainTok, ChainTok, usize)>, c: ChainTok, e: ChainTok) -> int
    decreases t.len(),
{
    if t.len() == 0 {
        0
    } else {
        trans_count(t.drop_last(), c, e) + entry_part(t.last(), c, e)
    }
}

/// The sum of all counts of the table.
pub open spec fn sum_counts(t: Seq<(ChainTok, ChainTok, usize)>) -> int
    decreases t.len(),
{
    if t.len() == 0 {
        0
    } else {
        sum_counts(t.drop_last()) + t.last().2
    }
}

/// The number of occurrences of pair `(c, e)` in a recorded sequence.
pub open spec fn pair_count(ps: Seq<(ChainTok, ChainTok)>, c: ChainTok, e: ChainTok) -> int
    decreases ps.len(),
{
    if ps.len() == 0 {
        0
    } else {
        pair_count(ps.drop_last(), c, e) + if ps.last().0 == c && ps.last().1 == e {
            1 as int
        } else {
            0
        }
    }
}

proof fn lemma_pair_count_push(ps: Seq<(ChainTok, ChainTok)>, p: (ChainTok, ChainTok), c: ChainTok, e: ChainTok)
    ensures
        pair_count(ps.push(p), c, e) == pair_count(ps, c, e)
            + if p.0 == c && p.1 == e { 1 as int } else { 0 },
{
    assert(ps.push(p).drop_last() =~= ps);
    assert(ps.push(p).last() == p);
}

proof fn lemma_trans_count_push(t: Seq<(ChainTok, ChainTok, usize)>, v: (ChainTok, ChainTok, usize), c: ChainTok, e: ChainTok)
    ensures
        trans_count(t.push(v), c, e) == trans_count(t, c, e) + entry_part(v, c, e),
        sum_counts(t.push(v)) == sum_counts(t) + v.2,
{
    assert(t.push(v).drop_last() =~= t);
    assert(t.push(v).last() == v);
}

proof fn lemma_trans_count_update(t: Seq<(ChainTok, ChainTok, usize)>, j: int, v: (ChainTok, ChainTok, usize), c: ChainTok, e: ChainTok)
    requires
        0 <= j < t.len(),
    ensures
        trans_count(t.update(j, v), c, e) == trans_count(t, c, e) - entry_part(t[j], c, e) + entry_part(v, c, e),
        sum_counts(t.update(j, v)) == sum_counts(t) - t[j].2 + v.2,
    decreases t.len(),
{
    if j == t.len() - 1 {
        assert(t.update(j, v).drop_last() =~= t.drop_last());
        assert(t.update(j, v).last() == v);
        assert(t.last() == t[j]);
    } else {
        assert(t.update(j, v).drop_last() =~= t.drop_last().update(j, v));
        assert(t.update(j, v).last() == t.last());
        assert(t.drop_last()[j] == t[j]);
        lemma_trans_count_update(t.drop_last(), j, v, c, e);
    }
}

/// All counts are nonnegative, so each entry is bounded by the total.
proof fn lemma_entry_le_sum(t: Seq<(ChainTok, ChainTok, usize)>, j: int)
    requires
        0 <= j < t.len(),
    ensures
        t[j].2 <= sum_counts(t),
    decreases t.len(),
{
    if j == t.len() - 1 {
        lemma_sum_counts_nonneg(t.drop_last());
    } else {
        lemma_entry_le_sum(t.drop_last(), j);
        assert(t.drop_last()[j] == t[j]);
    }
}

proof fn lemma_sum_counts_nonneg(t: Seq<(ChainTok, ChainTok, usize)>)
    ensures
        sum_counts(t) >= 0,
    decreases t.len(),
{
    if t.len() > 0 {
        lemma_sum_counts_nonneg(t.drop_last());
    }
}

} // verus!

verus! {

/// Views of the recorded invocation list.
pub open spec fn calls_views(s: Seq<(String, Vec<(String, Option<String>)>)>) -> Seq<(Seq<char>, Seq<(Seq<char>, Option<Seq<char>>)>)> {
    s.map_values(|c: (String, Vec<(String, Option<String>)>)| (c.0@, args_views(c.1@)))
}

/// The caller-constructed accumulator for one corpus pass: transition
/// counts, plus the function invocations pending parameter tallying.
pub struct ModelBuilder {
    /// Occurrence count per (context, emitted) pair.
    pub token_map: Vec<(MarkovToken, MarkovToken, usize)>,
    /// The function invocations seen, pending parameter tallying.
    pub calls: Vec<(String, Vec<(String, Option<String>)>)>,
    /// The number of transitions recorded.
    pub total: usize,
}

impl ModelBuilder {
    /// The transition table accumulated so far.
    pub open spec fn trans(self) -> Seq<(ChainTok, ChainTok, usize)> {
        tm_views(self.token_map@)
    }

    /// The invocations accumulated so far.
    pub open spec fn calls_model(self) -> Seq<(Seq<char>, Seq<(Seq<char>, Option<Seq<char>>)>)> {
        calls_views(self.calls@)
    }

    /// The number of transitions recorded so far.
    pub open spec fn total_model(self) -> int {
        self.total as int
    }

    /// The accumulator invariant: counts sum to the number of recorded
    /// transitions, each (context, emitted) pair has one entry, only
    /// `Word`, `FunctionCall` and `End` are emitted, and every recorded
    /// invocation has a duplicate-free argument list.
    pub open spec fn wf(self) -> bool {
        let t = self.trans();
        &&& sum_counts(t) == self.total as int
        &&& forall|j1: int, j2: int| 0 <= j1 < j2 < t.len()
            ==> !((#[trigger] t[j1]).0 == (#[trigger] t[j2]).0 && t[j1].1 == t[j2].1)
        &&& forall|j: int| 0 <= j < t.len()
            ==> ((#[trigger] t[j]).1 is Word || t[j].1 is FunctionCall || t[j].1 is End)
        &&& forall|j: int| 0 <= j < self.calls_model().len()
            ==> distinct_keys((#[trigger] self.calls_model()[j]).1)
    }

    /// A fresh, empty accumulator.
    pub fn new() -> (r: Self)
        ensures
            r.wf(),
            r.trans() == Seq::<(ChainTok, ChainTok, usize)>::empty(),
            r.calls_model() == Seq::<(Seq<char>, Seq<(Seq<char>, Option<Seq<char>>)>)>::empty(),
            r.total_model() == 0,
    {
        let r = ModelBuilder { token_map: Vec::new(), calls: Vec::new(), total: 0 };
        proof {
            assert(r.trans() =~= Seq::<(ChainTok, ChainTok, usize)>::empty());
            assert(r.calls_model() =~= Seq::<(Seq<char>, Seq<(Seq<char>, Option<Seq<char>>)>)>::empty());
        }
        r
    }

    /// Records one transition: bumps the count of its (context, emitted)
    /// entry, creating the entry at count one if absent.
    fn record(&mut self, c: &MarkovToken, em: &MarkovToken)
        requires
            old(self).wf(),
            old(self).total < usize::MAX,
            em@ is Word || em@ is FunctionCall || em@ is End,
        ensures
            final(self).wf(),
            final(self).calls_model() == old(self).calls_model(),
            final(self).total_model() == old(self).total_model() + 1,
            forall|c2: ChainTok, e2: ChainTok|
                trans_count(final(self).trans(), c2, e2) == trans_count(old(self).trans(), c2, e2)
                    + if c2 == c@ && e2 == em@ { 1 as int } else { 0 },
    {
        let ghost t0 = self.trans();
        let n = self.token_map.len();
        let mut j: usize = 0;
        let mut found = false;
        while j < n
            invariant_except_break
                j <= n,
                !found,
                n == self.token_map@.len(),
                forall|m: int| 0 <= m < j
                    ==> !((#[trigger] tm_views(self.token_map@)[m]).0 == c@
                        && tm_views(self.token_map@)[m].1 == em@),
            ensures
                n == self.token_map@.len(),
                found ==> j < n && tm_views(self.token_map@)[j as int].0 == c@
                    && tm_views(self.token_map@)[j as int].1 == em@,
                !found ==> forall|m: int| 0 <= m < n
                    ==> !((#[trigger] tm_views(self.token_map@)[m]).0 == c@
                        && tm_views(self.token_map@)[m].1 == em@),
            decreases n - j,
        {
            let hit = self.token_map[j].0.eq(c) && self.token_map[j].1.eq(em);
            if hit {
                found = true;
                break;
            }
            j = j + 1;
        }
        if found {
            proof {
                crate::builder::lemma_entry_le_sum(t0, j as int);
            }
            let cnt = self.token_map[j].2;
            let c1 = self.token_map[j].0.dup();
            let e1 = self.token_map[j].1.dup();
            let ghost old_entry = t0[j as int];
            self.token_map.set(j, (c1, e1, cnt + 1));
            proof {
                assert(self.trans() =~= t0.update(j as int, (old_entry.0, old_entry.1, (cnt + 1) as usize)));
                assert forall|c2: ChainTok, e2: ChainTok|
                    trans_count(self.trans(), c2, e2) == trans_count(t0, c2, e2)
                        + (if c2 == c@ && e2 == em@ { 1 as int } else { 0 }) by {
                    lemma_trans_count_update(t0, j as int, (old_entry.0, old_entry.1, (cnt + 1) as usize), c2, e2);
                }
                lemma_trans_count_update(t0, j as int, (old_entry.0, old_entry.1, (cnt + 1) as usize), ChainTok::Start, ChainTok::Start);
            }
        } else {
            let entry = (c.dup(), em.dup(), 1);
            let ghost ev = (c@, em@, 1 as usize);
            self.token_map.push(entry);
            proof {
                assert(self.trans() =~= t0.push(ev));
                assert forall|c2: ChainTok, e2: ChainTok|
                    trans_count(self.trans(), c2, e2) == trans_count(t0, c2, e2)
                        + (if c2 == c@ && e2 == em@ { 1 as int } else { 0 }) by {
                    lemma_trans_count_push(t0, ev, c2, e2);
                }
                lemma_trans_count_push(t0, ev, ChainTok::Start, ChainTok::Start);
            }
        }
        self.total = self.total + 1;
        proof {
            assert(self.calls_model() =~= old(self).calls_model());
            assert forall|j: int| 0 <= j < self.calls_model().len()
                implies distinct_keys((#[trigger] self.calls_model()[j]).1) by {
                assert(self.calls_model()[j] == old(self).calls_model()[j]);
            }
        }
    }
}

} // verus!

verus! {

/// A document always records at least its closing transition.
proof fn lemma_doc_trans_len_ge1(doc: Seq<DTok>, ctx: ChainTok, stack: Seq<Seq<char>>)
    ensures
        doc_trans(doc, ctx, stack).len() >= 1,
    decreases doc.len(),
{
    if doc.len() == 0 {
    } else {
        match doc[0] {
            DTok::Emoji(e) => lemma_doc_trans_len_ge1(doc.drop_first(), ChainTok::Word(e), stack),
            DTok::FunctionOpen { name, .. } => lemma_doc_trans_len_ge1(
                doc.drop_first(), ChainTok::FunctionBody(name), stack.push(name)),
            DTok::FunctionClose => if stack.len() > 0 {
                lemma_doc_trans_len_ge1(doc.drop_first(), ChainTok::FunctionCall(stack.last()), stack.drop_last());
            } else {
                lemma_doc_trans_len_ge1(doc.drop_first(), ctx, stack);
            },
            DTok::Words(ws) => lemma_doc_trans_len_ge1(doc.drop_first(), word_ctx(ctx, ws), stack),
        }
    }
}

impl ModelBuilder {
    /// Folds one document's token stream into the accumulator: per token a
    /// transition is recorded as the context advances, function invocations
    /// are kept for parameter tallying, and the document is closed with a
    /// final transition to `End`.
    pub fn add_document(&mut self, doc: &Vec<DocToken>)
        requires
            old(self).wf(),
            scan_okd(dviews(doc@), 0),
            doc_args_wf(dviews(doc@)),
            old(self).total_model()
                + doc_trans(dviews(doc@), ChainTok::Start, Seq::empty()).len() <= usize::MAX,
        ensures
            final(self).wf(),
            forall|c2: ChainTok, e2: ChainTok|
                trans_count(final(self).trans(), c2, e2) == trans_count(old(self).trans(), c2, e2)
                    + pair_count(doc_trans(dviews(doc@), ChainTok::Start, Seq::empty()), c2, e2),
            final(self).calls_model() == old(self).calls_model() + doc_calls(dviews(doc@)),
            final(self).total_model() == old(self).total_model()
                + doc_trans(dviews(doc@), ChainTok::Start, Seq::empty()).len(),
    {
        let ghost dv = dviews(doc@);
        let ghost full = doc_trans(dv, ChainTok::Start, Seq::<Seq<char>>::empty());
        let n = doc.len();
        let mut ctx = MarkovToken::Start;
        let mut stack: Vec<String> = Vec::new();
        let ghost mut recorded: Seq<(ChainTok, ChainTok)> = Seq::empty();
        let ghost mut dc_done: Seq<(Seq<char>, Seq<(Seq<char>, Option<Seq<char>>)>)> = Seq::empty();
        proof {
            assert(dv.skip(0) =~= dv);
            assert(strs_views(stack@) =~= Seq::<Seq<char>>::empty());
            assert(recorded + doc_trans(dv.skip(0), ctx@, strs_views(stack@)) =~= full);
            assert(doc_calls(dv) =~= dc_done + doc_calls(dv.skip(0)));
            assert(self.calls_model() =~= old(self).calls_model() + dc_done);
            assert forall|c2: ChainTok, e2: ChainTok|
                trans_count(self.trans(), c2, e2) == trans_count(old(self).trans(), c2, e2)
                    + pair_count(recorded, c2, e2) by {}
        }
        let mut i: usize = 0;
        while i < n
            invariant
                i <= n,
                n == doc@.len(),
                dv == dviews(doc@),
                full == doc_trans(dv, ChainTok::Start, Seq::<Seq<char>>::empty()),
                self.wf(),
                doc_args_wf(dv),
                scan_okd(dv.skip(i as int), stack@.len() as int),
                full == recorded + doc_trans(dv.skip(i as int), ctx@, strs_views(stack@)),
                doc_calls(dv) == dc_done + doc_calls(dv.skip(i as int)),
                self.total_model() == old(self).total_model() + recorded.len(),
                self.calls_model() == old(self).calls_model() + dc_done,
                forall|c2: ChainTok, e2: ChainTok|
                    trans_count(self.trans(), c2, e2) == trans_count(old(self).trans(), c2, e2)
                        + pair_count(recorded, c2, e2),
                old(self).total_model() + full.len() <= usize::MAX,
            decreases n - i,
        {
            let ghost rem = dv.skip(i as int);
            let ghost sv = strs_views(stack@);
            proof {
                assert(rem[0] == dv[i as int]);
                assert(rem.drop_first() =~= dv.skip(i + 1));
                assert(full.len() == recorded.len() + doc_trans(rem, ctx@, sv).len());
            }
            match &doc[i] {
                DocToken::Emoji(e) => {
                    let ghost p = (ctx@, ChainTok::Word(e@));
                    proof {
                        assert(doc_trans(rem, ctx@, sv) == seq![p]
                            + doc_trans(rem.drop_first(), ChainTok::Word(e@), sv));
                        lemma_doc_trans_len_ge1(rem.drop_first(), ChainTok::Word(e@), sv);
                    }
                    let em = MarkovToken::Word(e.clone());
                    self.record(&ctx, &em);
                    ctx = em;
                    proof {
                        let rec2 = recorded.push(p);
                        assert forall|c2: ChainTok, e2: ChainTok|
                            trans_count(self.trans(), c2, e2) == trans_count(old(self).trans(), c2, e2)
                                + pair_count(rec2, c2, e2) by {
                            lemma_pair_count_push(recorded, p, c2, e2);
                        }
                        assert(rec2 + doc_trans(dv.skip(i + 1), ctx@, sv)
                            =~= recorded + (seq![p] + doc_trans(dv.skip(i + 1), ctx@, sv)));
                        recorded = rec2;
                    }
                },
                DocToken::FunctionClose => {
                    proof {
                        assert(sv.len() == stack@.len());
                    }
                    let nm = stack.pop().unwrap();
                    let ghost p = (ctx@, ChainTok::End);
                    proof {
                        assert(strs_views(stack@) =~= sv.drop_last());
                        assert(nm@ == sv.last());
                        assert(doc_trans(rem, ctx@, sv) == seq![p]
                            + doc_trans(rem.drop_first(), ChainTok::FunctionCall(sv.last()), sv.drop_last()));
                        lemma_doc_trans_len_ge1(rem.drop_first(), ChainTok::FunctionCall(sv.last()), sv.drop_last());
                    }
                    let em = MarkovToken::End;
                    self.record(&ctx, &em);
                    ctx = MarkovToken::FunctionCall(nm);
                    proof {
                        let rec2 = recorded.push(p);
                        assert forall|c2: ChainTok, e2: ChainTok|
                            trans_count(self.trans(), c2, e2) == trans_count(old(self).trans(), c2, e2)
                                + pair_count(rec2, c2, e2) by {
                            lemma_pair_count_push(recorded, p, c2, e2);
                        }
                        assert(rec2 + doc_trans(dv.skip(i + 1), ctx@, strs_views(stack@))
                            =~= recorded + (seq![p] + doc_trans(dv.skip(i + 1), ctx@, strs_views(stack@))));
                        recorded = rec2;
                    }
                },
                DocToken::FunctionOpen { name, args } => {
                    let ghost p = (ctx@, ChainTok::FunctionCall(name@));
                    proof {
                        assert(doc_trans(rem, ctx@, sv) == seq![p]
                            + doc_trans(rem.drop_first(), ChainTok::FunctionBody(name@), sv.push(name@)));
                        lemma_doc_trans_len_ge1(rem.drop_first(), ChainTok::FunctionBody(name@), sv.push(name@));
                    }
                    let em = MarkovToken::FunctionCall(name.clone());
                    self.record(&ctx, &em);
                    let ghost pre_calls = self.calls_model();
                    self.calls.push((name.clone(), crate::lexer::clone_args(args)));
                    stack.push(name.clone());
                    ctx = MarkovToken::FunctionBody(name.clone());
                    proof {
                        assert(strs_views(stack@) =~= sv.push(name@));
                        assert(self.calls_model() =~= pre_calls.push((name@, args_views(args@))));
                        assert(dv[i as int] matches DTok::FunctionOpen { args: a2, .. }
                            && a2 == args_views(args@));
                        assert forall|j: int| 0 <= j < self.calls_model().len()
                            implies distinct_keys((#[trigger] self.calls_model()[j]).1) by {
                            if j < pre_calls.len() {
                                assert(self.calls_model()[j] == pre_calls[j]);
                            }
                        }
                        assert(doc_calls(rem) == seq![(name@, args_views(args@))]
                            + doc_calls(rem.drop_first()));
                        let dc2 = dc_done.push((name@, args_views(args@)));
                        assert(dc2 + doc_calls(dv.skip(i + 1))
                            =~= dc_done + (seq![(name@, args_views(args@))] + doc_calls(dv.skip(i + 1))));
                        assert(self.calls_model() =~= old(self).calls_model() + dc2);
                        dc_done = dc2;
                        let rec2 = recorded.push(p);
                        assert forall|c2: ChainTok, e2: ChainTok|
                            trans_count(self.trans(), c2, e2) == trans_count(old(self).trans(), c2, e2)
                                + pair_count(rec2, c2, e2) by {
                            lemma_pair_count_push(recorded, p, c2, e2);
                        }
                        assert(rec2 + doc_trans(dv.skip(i + 1), ctx@, strs_views(stack@))
                            =~= recorded + (seq![p] + doc_trans(dv.skip(i + 1), ctx@, strs_views(stack@))));
                        recorded = rec2;
                    }
                },
                DocToken::Words(ws) => {
                    let ghost wsv = strs_views(ws@);
                    let ghost ctx0 = ctx@;
                    let ghost tail = doc_trans(rem.drop_first(), word_ctx(ctx0, wsv), sv);
                    proof {
                        assert(doc_trans(rem, ctx@, sv) == word_trans(ctx0, wsv) + tail);
                        assert(wsv.skip(0) =~= wsv);
                        lemma_doc_trans_len_ge1(rem.drop_first(), word_ctx(ctx0, wsv), sv);
                    }
                    let mut m: usize = 0;
                    while m < ws.len()
                        invariant
                            m <= ws.len(),
                            wsv == strs_views(ws@),
                            self.wf(),
                            sv == strs_views(stack@),
                            tail.len() >= 1,
                            full == recorded + (word_trans(ctx@, wsv.skip(m as int)) + tail),
                            word_ctx(ctx0, wsv) == word_ctx(ctx@, wsv.skip(m as int)),
                            self.total_model() == old(self).total_model() + recorded.len(),
                            self.calls_model() == old(self).calls_model() + dc_done,
                            forall|c2: ChainTok, e2: ChainTok|
                                trans_count(self.trans(), c2, e2) == trans_count(old(self).trans(), c2, e2)
                                    + pair_count(recorded, c2, e2),
                            old(self).total_model() + full.len() <= usize::MAX,
                        decreases ws.len() - m,
                    {
                        let ghost wrem = wsv.skip(m as int);
                        let ghost p = (ctx@, ChainTok::Word(wsv[m as int]));
                        proof {
                            assert(wrem[0] == wsv[m as int]);
                            assert(wrem.drop_first() =~= wsv.skip(m + 1));
                            assert(word_trans(ctx@, wrem) == seq![p]
                                + word_trans(ChainTok::Word(wsv[m as int]), wrem.drop_first()));
                            assert(full.len() == recorded.len()
                                + (word_trans(ctx@, wrem) + tail).len());
                        }
                        let em = MarkovToken::Word(ws[m].clone());
                        self.record(&ctx, &em);
                        ctx = em;
                        proof {
                            let rec2 = recorded.push(p);
                            assert forall|c2: ChainTok, e2: ChainTok|
                                trans_count(self.trans(), c2, e2) == trans_count(old(self).trans(), c2, e2)
                                    + pair_count(rec2, c2, e2) by {
                                lemma_pair_count_push(recorded, p, c2, e2);
                            }
                            assert(rec2 + (word_trans(ctx@, wsv.skip(m + 1)) + tail)
                                =~= recorded + (seq![p]
                                    + (word_trans(ctx@, wsv.skip(m + 1)) + tail)));
                            assert(seq![p] + (word_trans(ctx@, wsv.skip(m + 1)) + tail)
                                =~= (seq![p] + word_trans(ctx@, wsv.skip(m + 1))) + tail);
                            recorded = rec2;
                        }
                        m = m + 1;
                    }
                    proof {
                        assert(wsv.skip(ws@.len() as int) =~= Seq::<Seq<char>>::empty());
                        assert(word_trans(ctx@, Seq::<Seq<char>>::empty()) =~= Seq::<(ChainTok, ChainTok)>::empty());
                        assert(word_trans(ctx@, wsv.skip(ws@.len() as int)) + tail =~= tail);
                        assert(word_ctx(ctx@, Seq::<Seq<char>>::empty()) == ctx@);
                        assert(full == recorded + doc_trans(dv.skip(i + 1), ctx@, strs_views(stack@)));
                    }
                },
            }
            proof {
                assert(scan_okd(dv.skip(i + 1), stack@.len() as int));
                assert(doc_calls(dv) == dc_done + doc_calls(dv.skip(i + 1)));
            }
            i = i + 1;
        }
        proof {
            assert(dv.skip(n as int) =~= Seq::<DTok>::empty());
            assert(doc_trans(Seq::<DTok>::empty(), ctx@, strs_views(stack@))
                == seq![(ctx@, ChainTok::End)]);
            assert(full.len() == recorded.len() + 1);
            assert(doc_calls(Seq::<DTok>::empty()) =~= Seq::<(Seq<char>, Seq<(Seq<char>, Option<Seq<char>>)>)>::empty());
            assert(dc_done + doc_calls(Seq::<DTok>::empty()) =~= dc_done);
        }
        let em = MarkovToken::End;
        self.record(&ctx, &em);
        proof {
            let p = (ctx@, ChainTok::End);
            let rec2 = recorded.push(p);
            assert forall|c2: ChainTok, e2: ChainTok|
                trans_count(self.trans(), c2, e2) == trans_count(old(self).trans(), c2, e2)
                    + pair_count(rec2, c2, e2) by {
                lemma_pair_count_push(recorded, p, c2, e2);
            }
            assert(rec2 =~= recorded + seq![p]);
            assert(rec2 =~= full);
        }
    }
}

} // verus!

verus! {

/// The value state of one observed parameter occurrence.
pub open spec fn pv_of(v: Option<Seq<char>>) -> ParamValueTok {
    match v {
        Option::Some(s) => ParamValueTok::PresentWithValue(s),
        Option::None => ParamValueTok::PresentNoValue,
    }
}

/// The parameter occurrences of one invocation: (function name, key, value).
pub open spec fn occs_of_call(name: Seq<char>, args: Seq<(Seq<char>, Option<Seq<char>>)>) -> Seq<(Seq<char>, Seq<char>, Option<Seq<char>>)> {
    args.map_values(|a: (Seq<char>, Option<Seq<char>>)| (name, a.0, a.1))
}

/// All parameter occurrences of a corpus, in order.
pub open spec fn all_occs(calls: Seq<(Seq<char>, Seq<(Seq<char>, Option<Seq<char>>)>)>) -> Seq<(Seq<char>, Seq<char>, Option<Seq<char>>)>
    decreases calls.len(),
{
    if calls.len() == 0 {
        Seq::empty()
    } else {
        all_occs(calls.drop_last()) + occs_of_call(calls.last().0, calls.last().1)
    }
}

/// How often parameter `key` was observed on invocations of `name`.
pub open spec fn occ_cnt(os: Seq<(Seq<char>, Seq<char>, Option<Seq<char>>)>, name: Seq<char>, key: Seq<char>) -> int
    decreases os.len(),
{
    if os.len() == 0 {
        0
    } else {
        occ_cnt(os.drop_last(), name, key)
            + if os.last().0 == name && os.last().1 == key { 1 as int } else { 0 }
    }
}

/// How often parameter `key` was observed on invocations of `name` with
/// value state `pv`.
pub open spec fn pv_cnt(os: Seq<(Seq<char>, Seq<char>, Option<Seq<char>>)>, name: Seq<char>, key: Seq<char>, pv: ParamValueTok) -> int
    decreases os.len(),
{
    if os.len() == 0 {
        0
    } else {
        pv_cnt(os.drop_last(), name, key, pv)
            + if os.last().0 == name && os.last().1 == key && pv_of(os.last().2) == pv {
                1 as int
            } else {
                0
            }
    }
}

/// The number of invocations of `name`.
pub open spec fn uses_count(calls: Seq<(Seq<char>, Seq<(Seq<char>, Option<Seq<char>>)>)>, name: Seq<char>) -> int
    decreases calls.len(),
{
    if calls.len() == 0 {
        0
    } else {
        uses_count(calls.drop_last(), name) + if calls.last().0 == name { 1 as int } else { 0 }
    }
}

/// Whether an argument list carries `key`.
pub open spec fn args_has_key(args: Seq<(Seq<char>, Option<Seq<char>>)>, key: Seq<char>) -> bool {
    exists|m: int| 0 <= m < args.len() && (#[trigger] args[m]).0 == key
}

/// Views of the parameter table.
pub open spec fn fpm_views(s: Seq<(String, String, FunctionParamValue, usize)>) -> Seq<(Seq<char>, Seq<char>, ParamValueTok, usize)> {
    s.map_values(|e: (String, String, FunctionParamValue, usize)| (e.0@, e.1@, e.2@, e.3))
}

/// One parameter-table entry's contribution to a count.
pub open spec fn fpm_part(entry: (Seq<char>, Seq<char>, ParamValueTok, usize), name: Seq<char>, key: Seq<char>, pv: ParamValueTok) -> int {
    if entry.0 == name && entry.1 == key && entry.2 == pv {
        entry.3 as int
    } else {
        0
    }
}

/// The recorded count for `(name, key, pv)`.
pub open spec fn fpm_count(t: Seq<(Seq<char>, Seq<char>, ParamValueTok, usize)>, name: Seq<char>, key: Seq<char>, pv: ParamValueTok) -> int
    decreases t.len(),
{
    if t.len() == 0 {
        0
    } else {
        fpm_count(t.drop_last(), name, key, pv) + fpm_part(t.last(), name, key, pv)
    }
}

/// The sum of the present-state counts for `(name, key)`.
pub open spec fn present_sum(t: Seq<(Seq<char>, Seq<char>, ParamValueTok, usize)>, name: Seq<char>, key: Seq<char>) -> int
    decreases t.len(),
{
    if t.len() == 0 {
        0
    } else {
        present_sum(t.drop_last(), name, key)
            + if t.last().0 == name && t.last().1 == key && !(t.last().2 is Absent) {
                t.last().3 as int
            } else {
                0
            }
    }
}

proof fn lemma_fpm_push(t: Seq<(Seq<char>, Seq<char>, ParamValueTok, usize)>, v: (Seq<char>, Seq<char>, ParamValueTok, usize), name: Seq<char>, key: Seq<char>, pv: ParamValueTok)
    ensures
        fpm_count(t.push(v), name, key, pv) == fpm_count(t, name, key, pv) + fpm_part(v, name, key, pv),
        present_sum(t.push(v), name, key) == present_sum(t, name, key)
            + if v.0 == name && v.1 == key && !(v.2 is Absent) { v.3 as int } else { 0 },
{
    assert(t.push(v).drop_last() =~= t);
    assert(t.push(v).last() == v);
}

proof fn lemma_fpm_update(t: Seq<(Seq<char>, Seq<char>, ParamValueTok, usize)>, j: int, v: (Seq<char>, Seq<char>, ParamValueTok, usize), name: Seq<char>, key: Seq<char>, pv: ParamValueTok)
    requires
        0 <= j < t.len(),
    ensures
        fpm_count(t.update(j, v), name, key, pv) == fpm_count(t, name, key, pv)
            - fpm_part(t[j], name, key, pv) + fpm_part(v, name, key, pv),
        present_sum(t.update(j, v), name, key) == present_sum(t, name, key)
            - (if t[j].0 == name && t[j].1 == key && !(t[j].2 is Absent) { t[j].3 as int } else { 0 })
            + (if v.0 == name && v.1 == key && !(v.2 is Absent) { v.3 as int } else { 0 }),
    decreases t.len(),
{
    if j == t.len() - 1 {
        assert(t.update(j, v).drop_last() =~= t.drop_last());
        assert(t.update(j, v).last() == v);
        assert(t.last() == t[j]);
    } else {
        assert(t.update(j, v).drop_last() =~= t.drop_last().update(j, v));
        assert(t.update(j, v).last() == t.last());
        assert(t.drop_last()[j] == t[j]);
        lemma_fpm_update(t.drop_last(), j, v, name, key, pv);
    }
}

proof fn lemma_fpm_zero(t: Seq<(Seq<char>, Seq<char>, ParamValueTok, usize)>, name: Seq<char>, key: Seq<char>, pv: ParamValueTok)
    requires
        forall|m: int| 0 <= m < t.len()
            ==> !((#[trigger] t[m]).0 == name && t[m].1 == key && t[m].2 == pv),
    ensures
        fpm_count(t, name, key, pv) == 0,
    decreases t.len(),
{
    if t.len() > 0 {
        assert(forall|m: int| 0 <= m < t.len() - 1 ==> t.drop_last()[m] == t[m]);
        lemma_fpm_zero(t.drop_last(), name, key, pv);
    }
}

/// In a table with one entry per (name, key, state) triple, that entry's
/// count is the whole recorded count.
proof fn lemma_fpm_unique(t: Seq<(Seq<char>, Seq<char>, ParamValueTok, usize)>, j: int)
    requires
        0 <= j < t.len(),
        forall|m1: int, m2: int| 0 <= m1 < m2 < t.len()
            ==> !((#[trigger] t[m1]).0 == (#[trigger] t[m2]).0 && t[m1].1 == t[m2].1
                && t[m1].2 == t[m2].2),
    ensures
        fpm_count(t, t[j].0, t[j].1, t[j].2) == t[j].3 as int,
    decreases t.len(),
{
    if j == t.len() - 1 {
        assert(forall|m: int| 0 <= m < t.len() - 1 ==> t.drop_last()[m] == t[m]);
        lemma_fpm_zero(t.drop_last(), t[j].0, t[j].1, t[j].2);
    } else {
        assert(forall|m: int| 0 <= m < t.len() - 1 ==> t.drop_last()[m] == t[m]);
        lemma_fpm_unique(t.drop_last(), j);
    }
}

proof fn lemma_occ_push(os: Seq<(Seq<char>, Seq<char>, Option<Seq<char>>)>, o: (Seq<char>, Seq<char>, Option<Seq<char>>), name: Seq<char>, key: Seq<char>, pv: ParamValueTok)
    ensures
        occ_cnt(os.push(o), name, key) == occ_cnt(os, name, key)
            + if o.0 == name && o.1 == key { 1 as int } else { 0 },
        pv_cnt(os.push(o), name, key, pv) == pv_cnt(os, name, key, pv)
            + if o.0 == name && o.1 == key && pv_of(o.2) == pv { 1 as int } else { 0 },
{
    assert(os.push(o).drop_last() =~= os);
    assert(os.push(o).last() == o);
}

proof fn lemma_occ_app(a: Seq<(Seq<char>, Seq<char>, Option<Seq<char>>)>, b: Seq<(Seq<char>, Seq<char>, Option<Seq<char>>)>, name: Seq<char>, key: Seq<char>)
    ensures
        occ_cnt(a + b, name, key) == occ_cnt(a, name, key) + occ_cnt(b, name, key),
    decreases b.len(),
{
    if b.len() == 0 {
        assert(a + b =~= a);
    } else {
        assert((a + b).drop_last() =~= a + b.drop_last());
        assert((a + b).last() == b.last());
        lemma_occ_app(a, b.drop_last(), name, key);
    }
}

/// With a duplicate-free argument list, `key` is observed on a call at most
/// once; and exactly when the list carries it on a call of that name.
proof fn lemma_call_occ(nm: Seq<char>, ar: Seq<(Seq<char>, Option<Seq<char>>)>, name: Seq<char>, key: Seq<char>)
    requires
        distinct_keys(ar),
    ensures
        occ_cnt(occs_of_call(nm, ar), name, key)
            == if nm == name && args_has_key(ar, key) { 1 as int } else { 0 },
    decreases ar.len(),
{
    if ar.len() == 0 {
        assert(occs_of_call(nm, ar) =~= Seq::<(Seq<char>, Seq<char>, Option<Seq<char>>)>::empty());
        assert(!args_has_key(ar, key));
    } else {
        let dl = ar.drop_last();
        assert(occs_of_call(nm, ar).drop_last() =~= occs_of_call(nm, dl));
        assert(occs_of_call(nm, ar).last() == (nm, ar.last().0, ar.last().1));
        assert(forall|m: int| 0 <= m < dl.len() ==> dl[m] == ar[m]);
        lemma_call_occ(nm, dl, name, key);
        if ar.last().0 == key {
            assert(args_has_key(ar, key)) by {
                assert(ar[ar.len() - 1].0 == key);
            }
            assert(!args_has_key(dl, key)) by {
                assert forall|m: int| 0 <= m < dl.len() implies (#[trigger] dl[m]).0 != key by {
                    assert(ar[m].0 != ar[ar.len() - 1].0);
                }
            }
        } else {
            assert(args_has_key(ar, key) == args_has_key(dl, key)) by {
                if args_has_key(ar, key) {
                    let m = choose|m: int| 0 <= m < ar.len() && (#[trigger] ar[m]).0 == key;
                    assert(m < dl.len());
                    assert(dl[m].0 == key);
                }
                if args_has_key(dl, key) {
                    let m = choose|m: int| 0 <= m < dl.len() && (#[trigger] dl[m]).0 == key;
                    assert(ar[m].0 == key);
                }
            }
        }
    }
}

/// A parameter is observed at most as often as its function is invoked.
proof fn lemma_occ_le_uses(calls: Seq<(Seq<char>, Seq<(Seq<char>, Option<Seq<char>>)>)>, name: Seq<char>, key: Seq<char>)
    requires
        forall|j: int| 0 <= j < calls.len() ==> distinct_keys((#[trigger] calls[j]).1),
    ensures
        occ_cnt(all_occs(calls), name, key) <= uses_count(calls, name),
    decreases calls.len(),
{
    if calls.len() > 0 {
        let dl = calls.drop_last();
        assert(forall|m: int| 0 <= m < dl.len() ==> dl[m] == calls[m]);
        assert(calls.last() == calls[calls.len() - 1]);
        lemma_occ_le_uses(dl, name, key);
        lemma_occ_app(all_occs(dl), occs_of_call(calls.last().0, calls.last().1), name, key);
        lemma_call_occ(calls.last().0, calls.last().1, name, key);
    }
}

/// Invocation counts only grow along a prefix.
proof fn lemma_uses_take_le(calls: Seq<(Seq<char>, Seq<(Seq<char>, Option<Seq<char>>)>)>, j: int, name: Seq<char>)
    requires
        0 <= j <= calls.len(),
    ensures
        uses_count(calls.take(j), name) <= uses_count(calls, name),
    decreases calls.len(),
{
    if j == calls.len() {
        assert(calls.take(j) =~= calls);
    } else {
        let dl = calls.drop_last();
        assert(calls.take(j) =~= dl.take(j));
        lemma_uses_take_le(dl, j, name);
    }
}

proof fn lemma_uses_le_len(calls: Seq<(Seq<char>, Seq<(Seq<char>, Option<Seq<char>>)>)>, name: Seq<char>)
    ensures
        0 <= uses_count(calls, name) <= calls.len(),
    decreases calls.len(),
{
    if calls.len() > 0 {
        lemma_uses_le_len(calls.drop_last(), name);
    }
}

proof fn lemma_pv_le_occ(os: Seq<(Seq<char>, Seq<char>, Option<Seq<char>>)>, name: Seq<char>, key: Seq<char>, pv: ParamValueTok)
    ensures
        0 <= pv_cnt(os, name, key, pv) <= occ_cnt(os, name, key),
    decreases os.len(),
{
    if os.len() > 0 {
        lemma_pv_le_occ(os.drop_last(), name, key, pv);
    }
}

proof fn lemma_occ_nonneg(os: Seq<(Seq<char>, Seq<char>, Option<Seq<char>>)>, name: Seq<char>, key: Seq<char>)
    ensures
        0 <= occ_cnt(os, name, key),
    decreases os.len(),
{
    if os.len() > 0 {
        lemma_occ_nonneg(os.drop_last(), name, key);
    }
}

} // verus!

verus! {

/// Counts the invocations of `name` in the recorded list.
fn count_uses(calls: &Vec<(String, Vec<(String, Option<String>)>)>, name: &String) -> (u: usize)
    ensures
        u as int == uses_count(calls_views(calls@), name@),
{
    let ghost cv = calls_views(calls@);
    let mut u: usize = 0;
    let mut i: usize = 0;
    proof {
        assert(uses_count(cv.take(0), name@) == 0);
    }
    while i < calls.len()
        invariant
            i <= calls@.len(),
            cv == calls_views(calls@),
            u as int == uses_count(cv.take(i as int), name@),
            u <= i,
        decreases calls@.len() - i,
    {
        proof {
            assert(cv.take(i + 1).drop_last() =~= cv.take(i as int));
            assert(cv.take(i + 1).last() == cv[i as int]);
        }
        if calls[i].0.eq(name) {
            u = u + 1;
        }
        i = i + 1;
    }
    proof {
        assert(cv.take(calls@.len() as int) =~= cv);
    }
    u
}

/// Finds the first parameter-table entry for `(name, key, pv)`.
fn find_fpm(fpm: &Vec<(String, String, FunctionParamValue, usize)>, name: &String, key: &String, pv: &FunctionParamValue) -> (r: Option<usize>)
    ensures
        match r {
            Option::Some(j) => j < fpm@.len()
                && fpm_views(fpm@)[j as int].0 == name@
                && fpm_views(fpm@)[j as int].1 == key@
                && fpm_views(fpm@)[j as int].2 == pv@,
            Option::None => forall|m: int| 0 <= m < fpm@.len()
                ==> !((#[trigger] fpm_views(fpm@)[m]).0 == name@
                    && fpm_views(fpm@)[m].1 == key@ && fpm_views(fpm@)[m].2 == pv@),
        },
{
    let mut j: usize = 0;
    let mut found = false;
    while j < fpm.len()
        invariant_except_break
            j <= fpm@.len(),
            !found,
            forall|m: int| 0 <= m < j ==> !((#[trigger] fpm_views(fpm@)[m]).0 == name@
                && fpm_views(fpm@)[m].1 == key@ && fpm_views(fpm@)[m].2 == pv@),
        ensures
            found ==> j < fpm@.len()
                && fpm_views(fpm@)[j as int].0 == name@
                && fpm_views(fpm@)[j as int].1 == key@
                && fpm_views(fpm@)[j as int].2 == pv@,
            !found ==> forall|m: int| 0 <= m < fpm@.len()
                ==> !((#[trigger] fpm_views(fpm@)[m]).0 == name@
                    && fpm_views(fpm@)[m].1 == key@ && fpm_views(fpm@)[m].2 == pv@),
        decreases fpm@.len() - j,
    {
        let hit = fpm[j].0.eq(name) && fpm[j].1.eq(key) && fpm[j].2.eq(pv);
        if hit {
            found = true;
            break;
        }
        j = j + 1;
    }
    if found {
        Option::Some(j)
    } else {
        Option::None
    }
}

} // verus!

verus! {

impl ModelBuilder {
    /// Seals the accumulator into the persisted model. The transition table
    /// is kept as accumulated. The parameter table realizes derived absence:
    /// for each function name and parameter key, the `Absent` count is the
    /// name's invocation count minus the key's observed presences, and each
    /// present state carries its observed count — so `Absent` plus the sum
    /// of the present-state counts equals the invocation count.
    pub fn finish(self) -> (r: MarkovData)
        requires
            self.wf(),
        ensures
            tm_views(r.token_map@) == self.trans(),
            forall|n: Seq<char>, k: Seq<char>, pv: ParamValueTok| !(pv is Absent)
                ==> #[trigger] fpm_count(fpm_views(r.function_param_map@), n, k, pv)
                    == pv_cnt(all_occs(self.calls_model()), n, k, pv),
            forall|n: Seq<char>, k: Seq<char>|
                #[trigger] present_sum(fpm_views(r.function_param_map@), n, k)
                    == occ_cnt(all_occs(self.calls_model()), n, k),
            forall|n: Seq<char>, k: Seq<char>|
                #[trigger] fpm_count(fpm_views(r.function_param_map@), n, k, ParamValueTok::Absent)
                    == if occ_cnt(all_occs(self.calls_model()), n, k) > 0 {
                        uses_count(self.calls_model(), n) - occ_cnt(all_occs(self.calls_model()), n, k)
                    } else {
                        0
                    },
            forall|n: Seq<char>, k: Seq<char>| occ_cnt(all_occs(self.calls_model()), n, k) > 0
                ==> #[trigger] fpm_count(fpm_views(r.function_param_map@), n, k, ParamValueTok::Absent)
                    + present_sum(fpm_views(r.function_param_map@), n, k)
                    == uses_count(self.calls_model(), n),
    {
        let ghost cv = self.calls_model();
        let ModelBuilder { token_map, calls, total: _ } = self;
        let mut fpm: Vec<(String, String, FunctionParamValue, usize)> = Vec::new();
        let ghost mut os_done: Seq<(Seq<char>, Seq<char>, Option<Seq<char>>)> = Seq::empty();
        proof {
            assert(cv.take(0) =~= Seq::<(Seq<char>, Seq<(Seq<char>, Option<Seq<char>>)>)>::empty());
            assert(os_done =~= all_occs(cv.take(0)));
            assert(fpm_views(fpm@) =~= Seq::<(Seq<char>, Seq<char>, ParamValueTok, usize)>::empty());
        }
        let mut ci: usize = 0;
        while ci < calls.len()
            invariant
                ci <= calls@.len(),
                cv == calls_views(calls@),
                forall|j: int| 0 <= j < cv.len() ==> distinct_keys((#[trigger] cv[j]).1),
                os_done == all_occs(cv.take(ci as int)),
                forall|n: Seq<char>, k: Seq<char>, pv: ParamValueTok| !(pv is Absent)
                    ==> #[trigger] fpm_count(fpm_views(fpm@), n, k, pv) == pv_cnt(os_done, n, k, pv),
                forall|n: Seq<char>, k: Seq<char>|
                    #[trigger] present_sum(fpm_views(fpm@), n, k) == occ_cnt(os_done, n, k),
                forall|n: Seq<char>, k: Seq<char>|
                    #[trigger] fpm_count(fpm_views(fpm@), n, k, ParamValueTok::Absent)
                        == if occ_cnt(os_done, n, k) > 0 {
                            uses_count(cv, n) - occ_cnt(os_done, n, k)
                        } else {
                            0
                        },
                forall|m1: int, m2: int| 0 <= m1 < m2 < fpm_views(fpm@).len()
                    ==> !((#[trigger] fpm_views(fpm@)[m1]).0 == (#[trigger] fpm_views(fpm@)[m2]).0
                        && fpm_views(fpm@)[m1].1 == fpm_views(fpm@)[m2].1
                        && fpm_views(fpm@)[m1].2 == fpm_views(fpm@)[m2].2),
                forall|m: int| 0 <= m < fpm_views(fpm@).len()
                    ==> ((#[trigger] fpm_views(fpm@)[m]).2 is Absent
                        ==> occ_cnt(os_done, fpm_views(fpm@)[m].0, fpm_views(fpm@)[m].1) > 0),
            decreases calls@.len() - ci,
        {
            let ghost namev = cv[ci as int].0;
            let ghost argsv = cv[ci as int].1;
            let nargs = calls[ci].1.len();
            proof {
                assert(occs_of_call(namev, argsv.take(0))
                    =~= Seq::<(Seq<char>, Seq<char>, Option<Seq<char>>)>::empty());
                assert(os_done =~= all_occs(cv.take(ci as int)) + occs_of_call(namev, argsv.take(0)));
            }
            let mut aj: usize = 0;
            while aj < nargs
                invariant
                    aj <= nargs,
                    ci < calls@.len(),
                    nargs == cv[ci as int].1.len(),
                    namev == cv[ci as int].0,
                    argsv == cv[ci as int].1,
                    cv == calls_views(calls@),
                    forall|j: int| 0 <= j < cv.len() ==> distinct_keys((#[trigger] cv[j]).1),
                    os_done == all_occs(cv.take(ci as int)) + occs_of_call(namev, argsv.take(aj as int)),
                    forall|n: Seq<char>, k: Seq<char>, pv: ParamValueTok| !(pv is Absent)
                        ==> #[trigger] fpm_count(fpm_views(fpm@), n, k, pv) == pv_cnt(os_done, n, k, pv),
                    forall|n: Seq<char>, k: Seq<char>|
                        #[trigger] present_sum(fpm_views(fpm@), n, k) == occ_cnt(os_done, n, k),
                    forall|n: Seq<char>, k: Seq<char>|
                        #[trigger] fpm_count(fpm_views(fpm@), n, k, ParamValueTok::Absent)
                            == if occ_cnt(os_done, n, k) > 0 {
                                uses_count(cv, n) - occ_cnt(os_done, n, k)
                            } else {
                                0
                            },
                    forall|m1: int, m2: int| 0 <= m1 < m2 < fpm_views(fpm@).len()
                        ==> !((#[trigger] fpm_views(fpm@)[m1]).0 == (#[trigger] fpm_views(fpm@)[m2]).0
                            && fpm_views(fpm@)[m1].1 == fpm_views(fpm@)[m2].1
                            && fpm_views(fpm@)[m1].2 == fpm_views(fpm@)[m2].2),
                    forall|m: int| 0 <= m < fpm_views(fpm@).len()
                        ==> ((#[trigger] fpm_views(fpm@)[m]).2 is Absent
                            ==> occ_cnt(os_done, fpm_views(fpm@)[m].0, fpm_views(fpm@)[m].1) > 0),
                decreases nargs - aj,
            {
                let ghost fv = fpm_views(fpm@);
                let ghost keyv = argsv[aj as int].0;
                let ghost valv = argsv[aj as int].1;
                let ghost o = (namev, keyv, valv);
                let ghost occ0 = occ_cnt(os_done, namev, keyv);
                let ghost os2 = os_done.push(o);
                let u = count_uses(&calls, &calls[ci].0);
                let ghost uval = uses_count(cv, namev);
                proof {
                    assert(distinct_keys(argsv));
                    assert(forall|m: int| 0 <= m < aj ==> argsv.take(aj as int)[m] == argsv[m]);
                    assert(distinct_keys(argsv.take(aj as int)));
                    assert forall|m: int| 0 <= m < aj
                        implies (#[trigger] argsv.take(aj as int)[m]).0 != keyv by {
                        assert(argsv[m].0 != argsv[aj as int].0);
                    }
                    assert(!args_has_key(argsv.take(aj as int), keyv));
                    lemma_call_occ(namev, argsv.take(aj as int), namev, keyv);
                    lemma_occ_app(all_occs(cv.take(ci as int)),
                        occs_of_call(namev, argsv.take(aj as int)), namev, keyv);
                    assert(forall|j: int| 0 <= j < cv.take(ci as int).len()
                        ==> distinct_keys((#[trigger] cv.take(ci as int)[j]).1));
                    lemma_occ_le_uses(cv.take(ci as int), namev, keyv);
                    assert(cv.take(ci + 1).drop_last() =~= cv.take(ci as int));
                    assert(cv.take(ci + 1).last() == cv[ci as int]);
                    lemma_uses_take_le(cv, ci + 1, namev);
                    assert(occ0 < uval);
                    lemma_uses_le_len(cv, namev);
                    lemma_occ_nonneg(os_done, namev, keyv);
                    assert(occs_of_call(namev, argsv.take(aj + 1))
                        =~= occs_of_call(namev, argsv.take(aj as int)).push(o));
                    assert(os2 =~= all_occs(cv.take(ci as int))
                        + occs_of_call(namev, argsv.take(aj + 1)));
                }
                // derived absence: seed or decrement the Absent entry
                let abs_probe = FunctionParamValue::Absent;
                let ghost mut fvb: Seq<(Seq<char>, Seq<char>, ParamValueTok, usize)> = fv;
                let ghost mut abs_j: int = -1;
                let ghost mut absnew: (Seq<char>, Seq<char>, ParamValueTok, usize)
                    = (namev, keyv, ParamValueTok::Absent, 0);
                match find_fpm(&fpm, &calls[ci].0, &calls[ci].1[aj].0, &abs_probe) {
                    Option::Some(j) => {
                        proof {
                            lemma_fpm_unique(fv, j as int);
                            assert(occ0 > 0);
                            assert(fv[j as int].3 as int == uval - occ0);
                        }
                        let cnt = fpm[j].3;
                        let nm = calls[ci].0.clone();
                        let ky = calls[ci].1[aj].0.clone();
                        fpm.set(j, (nm, ky, FunctionParamValue::Absent, cnt - 1));
                        proof {
                            abs_j = j as int;
                            absnew = (namev, keyv, ParamValueTok::Absent, (cnt - 1) as usize);
                            fvb = fv.update(j as int, absnew);
                            assert(fpm_views(fpm@) =~= fvb);
                        }
                    },
                    Option::None => {
                        proof {
                            lemma_fpm_zero(fv, namev, keyv, ParamValueTok::Absent);
                            assert(occ0 == 0);
                        }
                        let nm = calls[ci].0.clone();
                        let ky = calls[ci].1[aj].0.clone();
                        fpm.push((nm, ky, FunctionParamValue::Absent, u - 1));
                        proof {
                            absnew = (namev, keyv, ParamValueTok::Absent, (u - 1) as usize);
                            fvb = fv.push(absnew);
                            assert(fpm_views(fpm@) =~= fvb);
                        }
                    },
                }
                proof {
                    // the absence edit preserves triples, so one entry per triple remains
                    if abs_j >= 0 {
                        assert(forall|m: int| 0 <= m < fv.len()
                            ==> (#[trigger] fvb[m]).0 == fv[m].0 && fvb[m].1 == fv[m].1
                                && fvb[m].2 == fv[m].2);
                    }
                    assert(forall|m1: int, m2: int| 0 <= m1 < m2 < fvb.len()
                        ==> !((#[trigger] fvb[m1]).0 == (#[trigger] fvb[m2]).0
                            && fvb[m1].1 == fvb[m2].1 && fvb[m1].2 == fvb[m2].2));
                    // present counts are untouched by the absence edit
                    assert forall|n: Seq<char>, k: Seq<char>, pv2: ParamValueTok| !(pv2 is Absent)
                        implies #[trigger] fpm_count(fvb, n, k, pv2) == pv_cnt(os_done, n, k, pv2) by {
                        if abs_j >= 0 {
                            lemma_fpm_update(fv, abs_j, absnew, n, k, pv2);
                        } else {
                            lemma_fpm_push(fv, absnew, n, k, pv2);
                        }
                    }
                }
                // tally the observed present state
                let pv = match &calls[ci].1[aj].1 {
                    Option::Some(v) => FunctionParamValue::PresentWithValue(v.clone()),
                    Option::None => FunctionParamValue::PresentNoValue,
                };
                let ghost pvv = pv_of(valv);
                let ghost mut pres_j: int = -1;
                let ghost mut presnew: (Seq<char>, Seq<char>, ParamValueTok, usize)
                    = (namev, keyv, pvv, 1);
                proof {
                    assert(pv@ == pvv);
                }
                match find_fpm(&fpm, &calls[ci].0, &calls[ci].1[aj].0, &pv) {
                    Option::Some(j2) => {
                        proof {
                            lemma_fpm_unique(fvb, j2 as int);
                            lemma_pv_le_occ(os_done, namev, keyv, pvv);
                            assert(fvb[j2 as int].3 as int <= occ0);
                        }
                        let cnt2 = fpm[j2].3;
                        let nm = calls[ci].0.clone();
                        let ky = calls[ci].1[aj].0.clone();
                        fpm.set(j2, (nm, ky, pv, cnt2 + 1));
                        proof {
                            pres_j = j2 as int;
                            presnew = (namev, keyv, pvv, (cnt2 + 1) as usize);
                            assert(fpm_views(fpm@) =~= fvb.update(j2 as int, presnew));
                        }
                    },
                    Option::None => {
                        let nm = calls[ci].0.clone();
                        let ky = calls[ci].1[aj].0.clone();
                        fpm.push((nm, ky, pv, 1));
                        proof {
                            assert(fpm_views(fpm@) =~= fvb.push(presnew));
                        }
                    },
                }
                proof {
                    let fvc = fpm_views(fpm@);
                    assert forall|n: Seq<char>, k: Seq<char>, pv2: ParamValueTok| !(pv2 is Absent)
                        implies #[trigger] fpm_count(fvc, n, k, pv2) == pv_cnt(os2, n, k, pv2) by {
                        if pres_j >= 0 {
                            lemma_fpm_update(fvb, pres_j, presnew, n, k, pv2);
                        } else {
                            lemma_fpm_push(fvb, presnew, n, k, pv2);
                        }
                        lemma_occ_push(os_done, o, n, k, pv2);
                    }
                    assert forall|n: Seq<char>, k: Seq<char>|
                        #[trigger] present_sum(fvc, n, k) == occ_cnt(os2, n, k) by {
                        if abs_j >= 0 {
                            lemma_fpm_update(fv, abs_j, absnew, n, k, ParamValueTok::Absent);
                        } else {
                            lemma_fpm_push(fv, absnew, n, k, ParamValueTok::Absent);
                        }
                        if pres_j >= 0 {
                            lemma_fpm_update(fvb, pres_j, presnew, n, k, ParamValueTok::Absent);
                        } else {
                            lemma_fpm_push(fvb, presnew, n, k, ParamValueTok::Absent);
                        }
                        lemma_occ_push(os_done, o, n, k, ParamValueTok::Absent);
                    }
                    assert forall|n: Seq<char>, k: Seq<char>|
                        #[trigger] fpm_count(fvc, n, k, ParamValueTok::Absent)
                            == if occ_cnt(os2, n, k) > 0 {
                                uses_count(cv, n) - occ_cnt(os2, n, k)
                            } else {
                                0
                            } by {
                        if abs_j >= 0 {
                            lemma_fpm_update(fv, abs_j, absnew, n, k, ParamValueTok::Absent);
                        } else {
                            lemma_fpm_push(fv, absnew, n, k, ParamValueTok::Absent);
                        }
                        if pres_j >= 0 {
                            lemma_fpm_update(fvb, pres_j, presnew, n, k, ParamValueTok::Absent);
                        } else {
                            lemma_fpm_push(fvb, presnew, n, k, ParamValueTok::Absent);
                        }
                        lemma_occ_push(os_done, o, n, k, ParamValueTok::Absent);
                        lemma_occ_nonneg(os_done, n, k);
                    }
                    if pres_j >= 0 {
                        assert(forall|m: int| 0 <= m < fvb.len()
                            ==> (#[trigger] fvc[m]).0 == fvb[m].0 && fvc[m].1 == fvb[m].1
                                && fvc[m].2 == fvb[m].2);
                    }
                    assert(forall|m1: int, m2: int| 0 <= m1 < m2 < fvc.len()
                        ==> !((#[trigger] fvc[m1]).0 == (#[trigger] fvc[m2]).0
                            && fvc[m1].1 == fvc[m2].1 && fvc[m1].2 == fvc[m2].2));
                    assert forall|m: int| 0 <= m < fvc.len()
                        implies ((#[trigger] fvc[m]).2 is Absent
                            ==> occ_cnt(os2, fvc[m].0, fvc[m].1) > 0) by {
                        lemma_occ_push(os_done, o, fvc[m].0, fvc[m].1, ParamValueTok::Absent);
                    }
                    os_done = os2;
                }
                aj = aj + 1;
            }
            proof {
                assert(argsv.take(nargs as int) =~= argsv);
                assert(cv.take(ci + 1).drop_last() =~= cv.take(ci as int));
                assert(cv.take(ci + 1).last() == cv[ci as int]);
                assert(all_occs(cv.take(ci + 1))
                    =~= all_occs(cv.take(ci as int)) + occs_of_call(namev, argsv));
            }
            ci = ci + 1;
        }
        proof {
            assert(cv.take(calls@.len() as int) =~= cv);
        }
        MarkovData { token_map, function_param_map: fpm }
    }
}

} // verus!

verus! {

/// Decides whether a stack walk over a document stream never underflows.
pub fn doc_stream_ok(doc: &Vec<DocToken>) -> (b: bool)
    ensures
        b == scan_okd(dviews(doc@), 0),
{
    let ghost dv = dviews(doc@);
    let mut d: usize = 0;
    let mut i: usize = 0;
    proof {
        assert(dv.skip(0) =~= dv);
    }
    while i < doc.len()
        invariant
            i <= doc@.len(),
            d <= i,
            dv == dviews(doc@),
            scan_okd(dv, 0) == scan_okd(dv.skip(i as int), d as int),
        decreases doc@.len() - i,
    {
        let ghost rem = dv.skip(i as int);
        proof {
            assert(rem[0] == dv[i as int]);
            assert(rem.drop_first() =~= dv.skip(i + 1));
        }
        match &doc[i] {
            DocToken::FunctionOpen { .. } => {
                d = d + 1;
            },
            DocToken::FunctionClose => {
                if d == 0 {
                    return false;
                }
                d = d - 1;
            },
            _ => {},
        }
        i = i + 1;
    }
    proof {
        assert(dv.skip(doc@.len() as int) =~= Seq::<DTok>::empty());
    }
    true
}

/// Decides whether an argument list is duplicate-free.
fn args_distinct(args: &Vec<(String, Option<String>)>) -> (b: bool)
    ensures
        b == distinct_keys(args_views(args@)),
{
    let ghost av = args_views(args@);
    let mut j: usize = 0;
    while j < args.len()
        invariant
            j <= args@.len(),
            av == args_views(args@),
            forall|a: int, b2: int| 0 <= a < b2 < j ==> (#[trigger] av[a]).0 != (#[trigger] av[b2]).0,
        decreases args@.len() - j,
    {
        let mut m: usize = 0;
        while m < j
            invariant
                m <= j < args@.len(),
                av == args_views(args@),
                forall|a: int, b2: int| 0 <= a < b2 < j ==> (#[trigger] av[a]).0 != (#[trigger] av[b2]).0,
                forall|a: int| 0 <= a < m ==> (#[trigger] av[a]).0 != av[j as int].0,
            decreases j - m,
        {
            if args[m].0.eq(&args[j].0) {
                proof {
                    assert(av[m as int].0 == av[j as int].0);
                }
                return false;
            }
            m = m + 1;
        }
        j = j + 1;
    }
    true
}

/// Decides whether every function-open token of the document carries a
/// duplicate-free argument list.
pub fn doc_args_ok(doc: &Vec<DocToken>) -> (b: bool)
    ensures
        b == doc_args_wf(dviews(doc@)),
{
    let ghost dv = dviews(doc@);
    let mut i: usize = 0;
    while i < doc.len()
        invariant
            i <= doc@.len(),
            dv == dviews(doc@),
            forall|j: int| 0 <= j < i ==> ((#[trigger] dv[j]) matches DTok::FunctionOpen { args, .. }
                ==> distinct_keys(args)),
        decreases doc@.len() - i,
    {
        match &doc[i] {
            DocToken::FunctionOpen { args, .. } => {
                if !args_distinct(args) {
                    proof {
                        assert(dv[i as int] matches DTok::FunctionOpen { args: a2, .. }
                            && a2 == args_views(args@));
                    }
                    return false;
                }
            },
            _ => {},
        }
        i = i + 1;
    }
    true
}

/// The per-token weights of a document: one transition per emoji, open and
/// close, one per word of a literal run.
pub open spec fn tok_weights(doc: Seq<DTok>) -> int
    decreases doc.len(),
{
    if doc.len() == 0 {
        0
    } else {
        (match doc[0] {
            DTok::Words(ws) => ws.len() as int,
            _ => 1,
        }) + tok_weights(doc.drop_first())
    }
}

proof fn lemma_word_trans_len(ctx: ChainTok, ws: Seq<Seq<char>>)
    ensures
        word_trans(ctx, ws).len() == ws.len(),
    decreases ws.len(),
{
    if ws.len() > 0 {
        lemma_word_trans_len(ChainTok::Word(ws[0]), ws.drop_first());
    }
}

/// A document records one transition per weight unit, plus its closing one.
pub proof fn lemma_doc_trans_len(doc: Seq<DTok>, ctx: ChainTok, stack: Seq<Seq<char>>)
    ensures
        doc_trans(doc, ctx, stack).len() == 1 + tok_weights(doc),
    decreases doc.len(),
{
    if doc.len() == 0 {
    } else {
        match doc[0] {
            DTok::Emoji(e) => lemma_doc_trans_len(doc.drop_first(), ChainTok::Word(e), stack),
            DTok::FunctionOpen { name, .. } => lemma_doc_trans_len(
                doc.drop_first(), ChainTok::FunctionBody(name), stack.push(name)),
            DTok::FunctionClose => if stack.len() > 0 {
                lemma_doc_trans_len(doc.drop_first(), ChainTok::FunctionCall(stack.last()), stack.drop_last());
            } else {
                lemma_doc_trans_len(doc.drop_first(), ctx, stack);
            },
            DTok::Words(ws) => {
                lemma_word_trans_len(ctx, ws);
                lemma_doc_trans_len(doc.drop_first(), word_ctx(ctx, ws), stack);
            },
        }
    }
}

proof fn lemma_tok_weights_nonneg(doc: Seq<DTok>)
    ensures
        tok_weights(doc) >= 0,
    decreases doc.len(),
{
    if doc.len() > 0 {
        lemma_tok_weights_nonneg(doc.drop_first());
    }
}

proof fn lemma_tok_weights_take(doc: Seq<DTok>, j: int)
    requires
        0 <= j <= doc.len(),
    ensures
        0 <= tok_weights(doc.take(j)) <= tok_weights(doc),
    decreases doc.len(),
{
    lemma_tok_weights_nonneg(doc);
    lemma_tok_weights_nonneg(doc.take(j));
    if j == doc.len() {
        assert(doc.take(j) =~= doc);
    } else if doc.len() == 0 {
        assert(doc.take(j) =~= doc);
    } else if j == 0 {
        assert(doc.take(0) =~= Seq::<DTok>::empty());
    } else {
        assert(doc.take(j)[0] == doc[0]);
        assert(doc.take(j).drop_first() =~= doc.drop_first().take(j - 1));
        lemma_tok_weights_take(doc.drop_first(), j - 1);
    }
}

/// Computes how many transitions folding this document will record, unless
/// that number does not fit a `usize`.
pub fn doc_weight(doc: &Vec<DocToken>) -> (r: Option<usize>)
    ensures
        match r {
            Option::Some(w) => w as int == doc_trans(dviews(doc@), ChainTok::Start, Seq::empty()).len(),
            Option::None => doc_trans(dviews(doc@), ChainTok::Start, Seq::empty()).len() > usize::MAX,
        },
{
    let ghost dv = dviews(doc@);
    proof {
        lemma_doc_trans_len(dv, ChainTok::Start, Seq::empty());
    }
    let mut w: usize = 1;
    let mut i: usize = 0;
    proof {
        assert(dv.take(0) =~= Seq::<DTok>::empty());
    }
    while i < doc.len()
        invariant
            i <= doc@.len(),
            dv == dviews(doc@),
            w as int == 1 + tok_weights(dv.take(i as int)),
        decreases doc@.len() - i,
    {
        proof {
            assert(dv.take(i + 1)[0] == dv[0]);
            lemma_tok_weights_take_step(dv, i as int);
        }
        let add: usize = match &doc[i] {
            DocToken::Words(ws) => ws.len(),
            _ => 1,
        };
        if w > usize::MAX - add {
            proof {
                lemma_tok_weights_take(dv, i + 1);
                assert(1 + tok_weights(dv.take(i + 1)) == w as int + add as int);
                assert(1 + tok_weights(dv) > usize::MAX);
                lemma_doc_trans_len(dv, ChainTok::Start, Seq::empty());
                assert(doc_trans(dviews(doc@), ChainTok::Start, Seq::empty()).len() > usize::MAX);
            }
            return Option::None;
        }
        w = w + add;
        i = i + 1;
    }
    proof {
        assert(dv.take(doc@.len() as int) =~= dv);
    }
    Option::Some(w)
}

/// One more token adds exactly its weight.
proof fn lemma_tok_weights_take_step(doc: Seq<DTok>, i: int)
    requires
        0 <= i < doc.len(),
    ensures
        tok_weights(doc.take(i + 1)) == tok_weights(doc.take(i))
            + (match doc[i] {
                DTok::Words(ws) => ws.len() as int,
                _ => 1,
            }),
    decreases i,
{
    if i == 0 {
        assert(doc.take(0) =~= Seq::<DTok>::empty());
        assert(doc.take(1)[0] == doc[0]);
        assert(doc.take(1).drop_first() =~= Seq::<DTok>::empty());
    } else {
        assert(doc.take(i + 1)[0] == doc[0]);
        assert(doc.take(i)[0] == doc[0]);
        assert(doc.take(i + 1).drop_first() =~= doc.drop_first().take(i));
        assert(doc.take(i).drop_first() =~= doc.drop_first().take(i - 1));
        assert(doc.drop_first()[i - 1] == doc[i]);
        lemma_tok_weights_take_step(doc.drop_first(), i - 1);
    }
}

} // verus!

verus! {

/// The number of literal-run tokens of a stream.
pub open spec fn run_count(a: Seq<Tok>) -> int
    decreases a.len(),
{
    if a.len() == 0 {
        0
    } else {
        (if a[0] is Chars { 1 as int } else { 0 }) + run_count(a.drop_first())
    }
}

proof fn lemma_run_count_take_step(a: Seq<Tok>, i: int)
    requires
        0 <= i < a.len(),
    ensures
        run_count(a.take(i + 1)) == run_count(a.take(i))
            + (if a[i] is Chars { 1 as int } else { 0 }),
    decreases i,
{
    if i == 0 {
        assert(a.take(0) =~= Seq::<Tok>::empty());
        assert(a.take(1)[0] == a[0]);
        assert(a.take(1).drop_first() =~= Seq::<Tok>::empty());
    } else {
        assert(a.take(i + 1)[0] == a[0]);
        assert(a.take(i)[0] == a[0]);
        assert(a.take(i + 1).drop_first() =~= a.drop_first().take(i));
        assert(a.take(i).drop_first() =~= a.drop_first().take(i - 1));
        assert(a.drop_first()[i - 1] == a[i]);
        lemma_run_count_take_step(a.drop_first(), i - 1);
    }
}

/// A lexical stream and a document stream have the same marker shape:
/// position for position, opens coincide and closes coincide.
pub open spec fn same_shape(a: Seq<Tok>, b: Seq<DTok>) -> bool {
    &&& a.len() == b.len()
    &&& forall|j: int| 0 <= j < a.len() ==> {
        &&& ((#[trigger] a[j]) is FunctionOpen <==> (#[trigger] b[j]) is FunctionOpen)
        &&& (a[j] is FunctionClose <==> b[j] is FunctionClose)
    }
}

/// Streams of the same marker shape walk the same stack: well-nesting of
/// the repaired lexical stream carries over to the document stream.
pub proof fn lemma_same_shape_scan(a: Seq<Tok>, b: Seq<DTok>, d: int)
    requires
        same_shape(a, b),
    ensures
        crate::repair::scan_ok(a, d) == scan_okd(b, d),
    decreases a.len(),
{
    if a.len() > 0 {
        assert(a[0] is FunctionOpen <==> b[0] is FunctionOpen);
        assert(a[0] is FunctionClose <==> b[0] is FunctionClose);
        assert(same_shape(a.drop_first(), b.drop_first())) by {
            assert forall|j: int| 0 <= j < a.drop_first().len() implies {
                &&& ((#[trigger] a.drop_first()[j]) is FunctionOpen
                    <==> (#[trigger] b.drop_first()[j]) is FunctionOpen)
                &&& (a.drop_first()[j] is FunctionClose <==> b.drop_first()[j] is FunctionClose)
            } by {
                assert(a.drop_first()[j] == a[j + 1]);
                assert(b.drop_first()[j] == b[j + 1]);
            }
        }
        match a[0] {
            Tok::FunctionOpen { .. } => lemma_same_shape_scan(a.drop_first(), b.drop_first(), d + 1),
            Tok::FunctionClose => lemma_same_shape_scan(a.drop_first(), b.drop_first(), d - 1),
            _ => lemma_same_shape_scan(a.drop_first(), b.drop_first(), d),
        }
    }
}

/// Copies a word list; the copy has the same views.
pub fn clone_strings(ws: &Vec<String>) -> (out: Vec<String>)
    ensures
        strs_views(out@) == strs_views(ws@),
{
    let mut out: Vec<String> = Vec::new();
    let mut i: usize = 0;
    proof {
        assert(strs_views(out@) =~= strs_views(ws@).take(0));
    }
    while i < ws.len()
        invariant
            i <= ws@.len(),
            strs_views(out@) == strs_views(ws@).take(i as int),
        decreases ws@.len() - i,
    {
        let ghost pre = out@;
        out.push(ws[i].clone());
        proof {
            assert(strs_views(out@) =~= strs_views(pre).push(strs_views(ws@)[i as int]));
            assert(strs_views(ws@).take(i + 1)
                =~= strs_views(ws@).take(i as int).push(strs_views(ws@)[i as int]));
            assert(strs_views(out@) =~= strs_views(ws@).take(i + 1));
        }
        i = i + 1;
    }
    proof {
        assert(strs_views(ws@).take(ws@.len() as int) =~= strs_views(ws@));
    }
    out
}

/// Assembles the document stream the builder folds: each literal run is
/// replaced by its word list — the segmenter's output, handed over in
/// stream order — and every other token carries over. Returns nothing
/// exactly when the number of word lists does not match the number of
/// runs. On a well-nested stream the result is well-nested too.
pub fn doc_from_tokens(toks: &Vec<MkToken>, word_lists: &Vec<Vec<String>>) -> (r: Option<Vec<DocToken>>)
    ensures
        match r {
            Option::Some(doc) => {
                &&& same_shape(views(toks@), dviews(doc@))
                &&& run_count(views(toks@)) == word_lists@.len()
                &&& forall|j: int| 0 <= j < toks@.len() ==> {
                    let a = views(toks@);
                    &&& (a[j] matches Tok::Emoji(e) ==> (#[trigger] dviews(doc@)[j]) == DTok::Emoji(e))
                    &&& (a[j] matches Tok::FunctionOpen { name, args, .. }
                        ==> dviews(doc@)[j] == (DTok::FunctionOpen { name, args }))
                    &&& (a[j] is FunctionClose ==> dviews(doc@)[j] == DTok::FunctionClose)
                    &&& (a[j] is Chars ==> dviews(doc@)[j]
                        == DTok::Words(strs_views(word_lists@[run_count(a.take(j))]@)))
                }
                &&& (crate::repair::balanced(views(toks@)) ==> scan_okd(dviews(doc@), 0))
            },
            Option::None => run_count(views(toks@)) != word_lists@.len(),
        },
{
    let ghost av = views(toks@);
    let n = toks.len();
    let mut doc: Vec<DocToken> = Vec::new();
    let mut ri: usize = 0;
    let mut i: usize = 0;
    proof {
        assert(av.take(0) =~= Seq::<Tok>::empty());
    }
    while i < n
        invariant
            i <= n,
            n == toks@.len(),
            av == views(toks@),
            doc@.len() == i,
            ri <= word_lists@.len(),
            ri as int == run_count(av.take(i as int)),
            forall|j: int| 0 <= j < i ==> {
                &&& ((#[trigger] av[j]) is FunctionOpen <==> (#[trigger] dviews(doc@)[j]) is FunctionOpen)
                &&& (av[j] is FunctionClose <==> dviews(doc@)[j] is FunctionClose)
                &&& (av[j] matches Tok::Emoji(e) ==> dviews(doc@)[j] == DTok::Emoji(e))
                &&& (av[j] matches Tok::FunctionOpen { name, args, .. }
                    ==> dviews(doc@)[j] == (DTok::FunctionOpen { name, args }))
                &&& (av[j] is FunctionClose ==> dviews(doc@)[j] == DTok::FunctionClose)
                &&& (av[j] is Chars ==> dviews(doc@)[j]
                    == DTok::Words(strs_views(word_lists@[run_count(av.take(j))]@)))
            },
        decreases n - i,
    {
        proof {
            lemma_run_count_take_step(av, i as int);
        }
        let ghost pre = doc@;
        match &toks[i] {
            MkToken::Emoji(e) => {
                doc.push(DocToken::Emoji(e.clone()));
                proof {
                    assert(dviews(doc@) =~= dviews(pre).push(DTok::Emoji(e@)));
                }
            },
            MkToken::FunctionOpen { name, args, .. } => {
                doc.push(DocToken::FunctionOpen {
                    name: name.clone(),
                    args: crate::lexer::clone_args(args),
                });
                proof {
                    assert(dviews(doc@) =~= dviews(pre).push(
                        DTok::FunctionOpen { name: name@, args: args_views(args@) }));
                }
            },
            MkToken::FunctionClose => {
                doc.push(DocToken::FunctionClose);
                proof {
                    assert(dviews(doc@) =~= dviews(pre).push(DTok::FunctionClose));
                }
            },
            MkToken::Char(_) => {
                if ri >= word_lists.len() {
                    proof {
                        lemma_run_count_take(av, i + 1);
                    }
                    return Option::None;
                }
                let ws = clone_strings(&word_lists[ri]);
                doc.push(DocToken::Words(ws));
                proof {
                    assert(dviews(doc@) =~= dviews(pre).push(
                        DTok::Words(strs_views(word_lists@[ri as int]@))));
                }
                ri = ri + 1;
            },
        }
        i = i + 1;
    }
    if ri < word_lists.len() {
        proof {
            assert(av.take(n as int) =~= av);
        }
        return Option::None;
    }
    proof {
        assert(av.take(n as int) =~= av);
        lemma_same_shape_scan(av, dviews(doc@), 0);
    }
    Option::Some(doc)
}

/// A prefix never holds more runs than the whole stream.
proof fn lemma_run_count_nonneg(a: Seq<Tok>)
    ensures
        run_count(a) >= 0,
    decreases a.len(),
{
    if a.len() > 0 {
        lemma_run_count_nonneg(a.drop_first());
    }
}

proof fn lemma_run_count_take(a: Seq<Tok>, j: int)
    requires
        0 <= j <= a.len(),
    ensures
        0 <= run_count(a.take(j)) <= run_count(a),
    decreases a.len(),
{
    lemma_run_count_nonneg(a);
    lemma_run_count_nonneg(a.take(j));
    if j == a.len() {
        assert(a.take(j) =~= a);
    } else if a.len() == 0 {
        assert(a.take(j) =~= a);
    } else if j == 0 {
        assert(a.take(0) =~= Seq::<Tok>::empty());
    } else {
        assert(a.take(j)[0] == a[0]);
        assert(a.take(j).drop_first() =~= a.drop_first().take(j - 1));
        lemma_run_count_take(a.drop_first(), j - 1);
    }
}

} // verus!
