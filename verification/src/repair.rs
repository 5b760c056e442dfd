//! Bracket repair: two linear passes that turn structurally unmatched
//! function-open/-close markers into literal text, and the run merger that
//! coalesces adjacent literal tokens.

use vstd::prelude::*;
use crate::lexer::{MkToken, Tok, views, render, tok_text, lemma_render_app};

verus! {

/// Forward pass with `k` unmatched opens seen so far: an unmatched close at
/// this depth is rewritten to a literal `]` character token.
pub open spec fn fwd(s: Seq<Tok>, k: int) -> Seq<Tok>
    decreases s.len(),
{
    if s.len() == 0 {
        s
    } else {
        let t = s[0];
        let rest = s.drop_first();
        match t {
            Tok::FunctionOpen { .. } => seq![t] + fwd(rest, k + 1),
            Tok::FunctionClose => if k > 0 {
                seq![t] + fwd(rest, k - 1)
            } else {
                seq![Tok::Chars(seq![']'])] + fwd(rest, k)
            },
            _ => seq![t] + fwd(rest, k),
        }
    }
}

/// Backward pass with `k` unmatched closes seen so far (to the right): an
/// unmatched open is rewritten to a literal token carrying its entire
/// original matched text.
pub open spec fn bwd(s: Seq<Tok>, k: int) -> Seq<Tok>
    decreases s.len(),
{
    if s.len() == 0 {
        s
    } else {
        let t = s.last();
        let rest = s.drop_last();
        match t {
            Tok::FunctionClose => bwd(rest, k + 1) + seq![t],
            Tok::FunctionOpen { all, .. } => if k > 0 {
                bwd(rest, k - 1) + seq![t]
            } else {
                bwd(rest, k) + seq![Tok::Chars(all)]
            },
            _ => bwd(rest, k) + seq![t],
        }
    }
}

/// Both repair passes: forward, then backward.
pub open spec fn spec_repair(s: Seq<Tok>) -> Seq<Tok> {
    bwd(fwd(s, 0), 0)
}

/// Number of function-open tokens.
pub open spec fn opens(s: Seq<Tok>) -> nat
    decreases s.len(),
{
    if s.len() == 0 {
        0
    } else {
        ((match s[0] { Tok::FunctionOpen { .. } => 1 as nat, _ => 0 as nat }) + opens(s.drop_first())) as nat
    }
}

/// Number of function-close tokens.
pub open spec fn closes(s: Seq<Tok>) -> nat
    decreases s.len(),
{
    if s.len() == 0 {
        0
    } else {
        ((match s[0] { Tok::FunctionClose => 1 as nat, _ => 0 as nat }) + closes(s.drop_first())) as nat
    }
}

/// A left-to-right stack walk started with `d` pending opens never
/// underflows.
pub open spec fn scan_ok(s: Seq<Tok>, d: int) -> bool
    decreases s.len(),
{
    if s.len() == 0 {
        true
    } else {
        match s[0] {
            Tok::FunctionOpen { .. } => scan_ok(s.drop_first(), d + 1),
            Tok::FunctionClose => d > 0 && scan_ok(s.drop_first(), d - 1),
            _ => scan_ok(s.drop_first(), d),
        }
    }
}

/// A right-to-left walk started with `k` pending closes never runs out of
/// closes for the opens it meets.
pub open spec fn scan_rok(s: Seq<Tok>, k: int) -> bool
    decreases s.len(),
{
    if s.len() == 0 {
        true
    } else {
        match s.last() {
            Tok::FunctionClose => scan_rok(s.drop_last(), k + 1),
            Tok::FunctionOpen { .. } => k > 0 && scan_rok(s.drop_last(), k - 1),
            _ => scan_rok(s.drop_last(), k),
        }
    }
}

/// Well-nested: a stack walk never underflows and ends with an empty stack.
pub open spec fn balanced(s: Seq<Tok>) -> bool {
    scan_ok(s, 0) && opens(s) == closes(s)
}

proof fn lemma_counts_app(a: Seq<Tok>, b: Seq<Tok>)
    ensures
        opens(a + b) == opens(a) + opens(b),
        closes(a + b) == closes(a) + closes(b),
    decreases a.len(),
{
    if a.len() == 0 {
        assert(a + b =~= b);
    } else {
        assert((a + b).drop_first() =~= a.drop_first() + b);
        assert((a + b)[0] == a[0]);
        lemma_counts_app(a.drop_first(), b);
    }
}

proof fn lemma_scan_ok_app(a: Seq<Tok>, b: Seq<Tok>, d: int)
    ensures
        scan_ok(a + b, d) == (scan_ok(a, d) && scan_ok(b, d + opens(a) - closes(a))),
    decreases a.len(),
{
    if a.len() == 0 {
        assert(a + b =~= b);
    } else {
        assert((a + b).drop_first() =~= a.drop_first() + b);
        assert((a + b)[0] == a[0]);
        match a[0] {
            Tok::FunctionOpen { .. } => lemma_scan_ok_app(a.drop_first(), b, d + 1),
            Tok::FunctionClose => lemma_scan_ok_app(a.drop_first(), b, d - 1),
            _ => lemma_scan_ok_app(a.drop_first(), b, d),
        }
        lemma_counts_app(a.drop_first(), b);
    }
}

/// A walk that never underflows leaves at least as many opens as closes
/// beyond its starting allowance.
proof fn lemma_scan_ok_counts(s: Seq<Tok>, d: int)
    requires
        0 <= d,
        scan_ok(s, d),
    ensures
        closes(s) <= opens(s) + d,
    decreases s.len(),
{
    if s.len() == 0 {
    } else {
        match s[0] {
            Tok::FunctionOpen { .. } => {
                assert(opens(s) == 1 + opens(s.drop_first()));
                assert(closes(s) == closes(s.drop_first()));
                assert(scan_ok(s.drop_first(), d + 1));
                lemma_scan_ok_counts(s.drop_first(), d + 1);
            },
            Tok::FunctionClose => {
                assert(opens(s) == opens(s.drop_first()));
                assert(closes(s) == 1 + closes(s.drop_first()));
                lemma_scan_ok_counts(s.drop_first(), d - 1);
            },
            _ => {
                assert(opens(s) == opens(s.drop_first()));
                assert(closes(s) == closes(s.drop_first()));
                lemma_scan_ok_counts(s.drop_first(), d);
            },
        }
    }
}

/// The forward pass leaves no underflowing close.
proof fn lemma_fwd_scan_ok(s: Seq<Tok>, k: int)
    requires
        k >= 0,
    ensures
        scan_ok(fwd(s, k), k),
    decreases s.len(),
{
    if s.len() == 0 {
    } else {
        let t = s[0];
        let rest = s.drop_first();
        match t {
            Tok::FunctionOpen { .. } => {
                lemma_fwd_scan_ok(rest, k + 1);
                assert((seq![t] + fwd(rest, k + 1)).drop_first() =~= fwd(rest, k + 1));
            },
            Tok::FunctionClose => {
                if k > 0 {
                    lemma_fwd_scan_ok(rest, k - 1);
                    assert((seq![t] + fwd(rest, k - 1)).drop_first() =~= fwd(rest, k - 1));
                } else {
                    lemma_fwd_scan_ok(rest, k);
                    assert((seq![Tok::Chars(seq![']'])] + fwd(rest, k)).drop_first()
                        =~= fwd(rest, k));
                }
            },
            _ => {
                lemma_fwd_scan_ok(rest, k);
                assert((seq![t] + fwd(rest, k)).drop_first() =~= fwd(rest, k));
            },
        }
    }
}

/// The backward pass leaves no open unmatched from the right.
proof fn lemma_bwd_scan_rok(s: Seq<Tok>, k: int)
    requires
        k >= 0,
    ensures
        scan_rok(bwd(s, k), k),
    decreases s.len(),
{
    if s.len() == 0 {
    } else {
        let t = s.last();
        let rest = s.drop_last();
        match t {
            Tok::FunctionClose => {
                lemma_bwd_scan_rok(rest, k + 1);
                assert((bwd(rest, k + 1) + seq![t]).drop_last() =~= bwd(rest, k + 1));
            },
            Tok::FunctionOpen { all, .. } => {
                if k > 0 {
                    lemma_bwd_scan_rok(rest, k - 1);
                    assert((bwd(rest, k - 1) + seq![t]).drop_last() =~= bwd(rest, k - 1));
                } else {
                    lemma_bwd_scan_rok(rest, k);
                    assert((bwd(rest, k) + seq![Tok::Chars(all)]).drop_last() =~= bwd(rest, k));
                }
            },
            _ => {
                lemma_bwd_scan_rok(rest, k);
                assert((bwd(rest, k) + seq![t]).drop_last() =~= bwd(rest, k));
            },
        }
    }
}

proof fn lemma_counts_single(t: Tok)
    ensures
        opens(seq![t]) == (match t { Tok::FunctionOpen { .. } => 1 as nat, _ => 0 as nat }),
        closes(seq![t]) == (match t { Tok::FunctionClose => 1 as nat, _ => 0 as nat }),
{
    assert(seq![t].drop_first() =~= Seq::<Tok>::empty());
    assert(seq![t][0] == t);
    assert(opens(Seq::<Tok>::empty()) == 0);
    assert(closes(Seq::<Tok>::empty()) == 0);
}

proof fn lemma_scan_ok_single(t: Tok, d: int)
    ensures
        scan_ok(seq![t], d) == (match t { Tok::FunctionClose => d > 0, _ => true }),
{
    assert(seq![t].drop_first() =~= Seq::<Tok>::empty());
    assert(seq![t][0] == t);
    assert(scan_ok(Seq::<Tok>::empty(), d - 1));
    assert(scan_ok(Seq::<Tok>::empty(), d));
    assert(scan_ok(Seq::<Tok>::empty(), d + 1));
}

/// On a stream with no underflowing close, the backward pass keeps every
/// close, keeps opens up to the matching allowance, and preserves the
/// no-underflow property.
proof fn lemma_bwd_props(s: Seq<Tok>, k: int)
    requires
        k >= 0,
        scan_ok(s, 0),
    ensures
        closes(bwd(s, k)) == closes(s),
        opens(bwd(s, k)) == if opens(s) <= closes(s) + k { opens(s) as int } else { closes(s) + k },
        scan_ok(bwd(s, k), 0),
    decreases s.len(),
{
    if s.len() == 0 {
    } else {
        let t = s.last();
        let rest = s.drop_last();
        assert(s =~= rest + seq![t]);
        lemma_scan_ok_app(rest, seq![t], 0);
        lemma_counts_single(t);
        lemma_counts_app(rest, seq![t]);
        assert(scan_ok(rest, 0));
        lemma_scan_ok_counts(rest, 0);
        assert(scan_ok(seq![t], opens(rest) - closes(rest)));
        lemma_scan_ok_single(t, opens(rest) - closes(rest));
        match t {
            Tok::FunctionClose => {
                assert(opens(rest) - closes(rest) > 0);
                lemma_bwd_props(rest, k + 1);
                let bp = bwd(rest, k + 1);
                assert(bwd(s, k) == bp + seq![t]);
                lemma_counts_app(bp, seq![t]);
                lemma_scan_ok_app(bp, seq![t], 0);
                assert(opens(bp) - closes(bp) > 0);
                lemma_scan_ok_single(t, opens(bp) - closes(bp));
                assert(scan_ok(bwd(s, k), 0));
            },
            Tok::FunctionOpen { all, .. } => {
                assert(opens(seq![t]) == 1 && closes(seq![t]) == 0);
                if k > 0 {
                    lemma_bwd_props(rest, k - 1);
                    let bp = bwd(rest, k - 1);
                    assert(bwd(s, k) == bp + seq![t]);
                    lemma_counts_app(bp, seq![t]);
                    lemma_scan_ok_app(bp, seq![t], 0);
                    lemma_scan_ok_single(t, opens(bp) - closes(bp));
                    assert(scan_ok(bwd(s, k), 0));
                } else {
                    lemma_bwd_props(rest, k);
                    let bp = bwd(rest, k);
                    let c = Tok::Chars(all);
                    assert(bwd(s, k) == bp + seq![c]);
                    lemma_counts_single(c);
                    lemma_counts_app(bp, seq![c]);
                    lemma_scan_ok_app(bp, seq![c], 0);
                    lemma_scan_ok_single(c, opens(bp) - closes(bp));
                    assert(scan_ok(bwd(s, k), 0));
                }
            },
            _ => {
                lemma_bwd_props(rest, k);
                let bp = bwd(rest, k);
                assert(bwd(s, k) == bp + seq![t]);
                lemma_counts_app(bp, seq![t]);
                lemma_scan_ok_app(bp, seq![t], 0);
                lemma_scan_ok_single(t, opens(bp) - closes(bp));
                assert(scan_ok(bwd(s, k), 0));
            },
        }
    }
}

/// Balance invariant: after repair, a stack walk over function-open/-close
/// tokens never underflows and ends with an empty stack; the mirrored
/// right-to-left walk holds as well.
pub proof fn lemma_repair_balanced(s: Seq<Tok>)
    ensures
        balanced(spec_repair(s)),
        scan_rok(spec_repair(s), 0),
{
    let f = fwd(s, 0);
    lemma_fwd_scan_ok(s, 0);
    lemma_scan_ok_counts(f, 0);
    lemma_bwd_props(f, 0);
    lemma_bwd_scan_rok(f, 0);
}

/// A walk that never underflows with allowance `k` passes the forward pass
/// through unchanged.
proof fn lemma_fwd_identity(s: Seq<Tok>, k: int)
    requires
        k >= 0,
        scan_ok(s, k),
    ensures
        fwd(s, k) == s,
    decreases s.len(),
{
    if s.len() == 0 {
    } else {
        let t = s[0];
        let rest = s.drop_first();
        match t {
            Tok::FunctionOpen { .. } => lemma_fwd_identity(rest, k + 1),
            Tok::FunctionClose => lemma_fwd_identity(rest, k - 1),
            _ => lemma_fwd_identity(rest, k),
        }
        assert(fwd(s, k) =~= s);
    }
}

/// A right-to-left walk that never runs out passes the backward pass
/// through unchanged.
proof fn lemma_bwd_identity(s: Seq<Tok>, k: int)
    requires
        k >= 0,
        scan_rok(s, k),
    ensures
        bwd(s, k) == s,
    decreases s.len(),
{
    if s.len() == 0 {
    } else {
        let t = s.last();
        let rest = s.drop_last();
        match t {
            Tok::FunctionClose => lemma_bwd_identity(rest, k + 1),
            Tok::FunctionOpen { .. } => lemma_bwd_identity(rest, k - 1),
            _ => lemma_bwd_identity(rest, k),
        }
        assert(bwd(s, k) =~= s);
    }
}

/// Repair idempotence: applying the repair pass to an already-repaired
/// stream is a no-op.
pub proof fn lemma_repair_idempotent(s: Seq<Tok>)
    ensures
        spec_repair(spec_repair(s)) == spec_repair(s),
{
    lemma_repair_balanced(s);
    let r = spec_repair(s);
    lemma_fwd_identity(r, 0);
    lemma_bwd_identity(r, 0);
}

proof fn lemma_render_single(t: Tok)
    ensures
        render(seq![t]) == tok_text(t),
{
    assert(seq![t].drop_first() =~= Seq::<Tok>::empty());
    assert(seq![t][0] == t);
    assert(render(Seq::<Tok>::empty()) =~= Seq::<char>::empty());
    assert(render(seq![t]) =~= tok_text(t));
}

/// The forward pass never drops or duplicates characters.
proof fn lemma_fwd_render(s: Seq<Tok>, k: int)
    ensures
        render(fwd(s, k)) == render(s),
    decreases s.len(),
{
    if s.len() == 0 {
    } else {
        let t = s[0];
        let rest = s.drop_first();
        assert(s =~= seq![t] + rest);
        lemma_render_app(seq![t], rest);
        match t {
            Tok::FunctionOpen { .. } => {
                lemma_fwd_render(rest, k + 1);
                lemma_render_app(seq![t], fwd(rest, k + 1));
            },
            Tok::FunctionClose => {
                if k > 0 {
                    lemma_fwd_render(rest, k - 1);
                    lemma_render_app(seq![t], fwd(rest, k - 1));
                } else {
                    lemma_fwd_render(rest, k);
                    lemma_render_app(seq![Tok::Chars(seq![']'])], fwd(rest, k));
                    lemma_render_single(Tok::Chars(seq![']']));
                    lemma_render_single(t);
                    assert(render(seq![Tok::Chars(seq![']'])]) =~= render(seq![t]));
                }
            },
            _ => {
                lemma_fwd_render(rest, k);
                lemma_render_app(seq![t], fwd(rest, k));
            },
        }
    }
}

/// The backward pass never drops or duplicates characters: a rewritten open
/// re-renders its entire original matched text.
proof fn lemma_bwd_render(s: Seq<Tok>, k: int)
    ensures
        render(bwd(s, k)) == render(s),
    decreases s.len(),
{
    if s.len() == 0 {
    } else {
        let t = s.last();
        let rest = s.drop_last();
        assert(s =~= rest + seq![t]);
        lemma_render_app(rest, seq![t]);
        match t {
            Tok::FunctionClose => {
                lemma_bwd_render(rest, k + 1);
                lemma_render_app(bwd(rest, k + 1), seq![t]);
            },
            Tok::FunctionOpen { all, .. } => {
                if k > 0 {
                    lemma_bwd_render(rest, k - 1);
                    lemma_render_app(bwd(rest, k - 1), seq![t]);
                } else {
                    lemma_bwd_render(rest, k);
                    lemma_render_app(bwd(rest, k), seq![Tok::Chars(all)]);
                    lemma_render_single(Tok::Chars(all));
                    lemma_render_single(t);
                    assert(render(seq![Tok::Chars(all)]) =~= render(seq![t]));
                }
            },
            _ => {
                lemma_bwd_render(rest, k);
                lemma_render_app(bwd(rest, k), seq![t]);
            },
        }
    }
}

/// Repair is rendition-preserving: concatenating all tokens' textual
/// renditions after repair reproduces the input text byte for byte.
pub proof fn lemma_repair_render(s: Seq<Tok>)
    ensures
        render(spec_repair(s)) == render(s),
{
    lemma_fwd_render(s, 0);
    lemma_bwd_render(fwd(s, 0), 0);
}

} // verus!


verus! {

/// Run merging folded from the left: adjacent literal runs coalesce, other
/// tokens stay singleton boundaries.
pub open spec fn merge_acc(acc: Seq<Tok>, rest: Seq<Tok>) -> Seq<Tok>
    decreases rest.len(),
{
    if rest.len() == 0 {
        acc
    } else {
        let t = rest[0];
        let acc2 = match t {
            Tok::Chars(b) => if acc.len() > 0 && acc.last() is Chars {
                acc.drop_last().push(Tok::Chars(acc.last()->Chars_0 + b))
            } else {
                acc.push(t)
            },
            _ => acc.push(t),
        };
        merge_acc(acc2, rest.drop_first())
    }
}

/// The merged form of a token stream.
pub open spec fn spec_merge(s: Seq<Tok>) -> Seq<Tok> {
    merge_acc(Seq::empty(), s)
}

/// Merging is rendition-preserving.
pub proof fn lemma_merge_render(acc: Seq<Tok>, rest: Seq<Tok>)
    ensures
        render(merge_acc(acc, rest)) == render(acc) + render(rest),
    decreases rest.len(),
{
    if rest.len() == 0 {
        assert(render(rest) =~= Seq::<char>::empty());
        assert(render(acc) + render(rest) =~= render(acc));
    } else {
        let t = rest[0];
        assert(rest.drop_first().len() == rest.len() - 1);
        let acc2 = match t {
            Tok::Chars(b) => if acc.len() > 0 && acc.last() is Chars {
                acc.drop_last().push(Tok::Chars(acc.last()->Chars_0 + b))
            } else {
                acc.push(t)
            },
            _ => acc.push(t),
        };
        match t {
            Tok::Chars(b) => {
                if acc.len() > 0 && acc.last() is Chars {
                    let last = acc.last();
                    let m = Tok::Chars(last->Chars_0 + b);
                    assert(acc =~= acc.drop_last() + seq![last]);
                    lemma_render_app(acc.drop_last(), seq![last]);
                    lemma_render_single(last);
                    assert(acc2 =~= acc.drop_last() + seq![m]);
                    lemma_render_app(acc.drop_last(), seq![m]);
                    lemma_render_single(m);
                    assert(render(acc2) =~= render(acc) + tok_text(t));
                } else {
                    assert(acc2 =~= acc + seq![t]);
                    lemma_render_app(acc, seq![t]);
                    lemma_render_single(t);
                }
            },
            _ => {
                assert(acc2 =~= acc + seq![t]);
                lemma_render_app(acc, seq![t]);
                lemma_render_single(t);
            },
        }
        lemma_merge_render(acc2, rest.drop_first());
        assert(render(rest) == tok_text(t) + render(rest.drop_first()));
        assert(render(acc2) + render(rest.drop_first()) =~= render(acc) + render(rest));
    }
}

/// Run merging is behaviorally transparent: the rendered text is unchanged.
pub proof fn lemma_merge_transparent(s: Seq<Tok>)
    ensures
        render(spec_merge(s)) == render(s),
{
    lemma_merge_render(Seq::empty(), s);
    assert(render(Seq::<Tok>::empty()) =~= Seq::<char>::empty());
    assert(render(Seq::<Tok>::empty()) + render(s) =~= render(s));
}

/// The forward repair pass: an unmatched close becomes a literal `]`.
fn fwd_pass(toks: &Vec<MkToken>) -> (out: Vec<MkToken>)
    ensures
        views(out@) == fwd(views(toks@), 0),
{
    let ghost a = views(toks@);
    let n = toks.len();
    let mut out1: Vec<MkToken> = Vec::new();
    let mut k: usize = 0;
    let mut i: usize = 0;
    proof {
        assert(a.skip(0) =~= a);
        assert(views(out1@) + fwd(a, 0) =~= fwd(a, 0));
    }
    while i < n
        invariant
            i <= n,
            k <= i,
            n == toks@.len(),
            a == views(toks@),
            views(out1@) + fwd(a.skip(i as int), k as int) == fwd(a, 0),
        decreases n - i,
    {
        let ghost rem = a.skip(i as int);
        proof {
            assert(rem[0] == a[i as int]);
            assert(rem.drop_first() =~= a.skip(i + 1));
        }
        let t = &toks[i];
        let ghost pre = out1@;
        match t {
            MkToken::FunctionOpen { .. } => {
                out1.push(t.dup());
                proof {
                    assert(views(out1@) =~= views(pre).push(rem[0]));
                    assert(fwd(rem, k as int) == seq![rem[0]] + fwd(rem.drop_first(), k as int + 1));
                    assert(views(out1@) + fwd(a.skip(i + 1), k as int + 1)
                        =~= views(pre) + fwd(rem, k as int));
                }
                k = k + 1;
            },
            MkToken::FunctionClose => {
                if k > 0 {
                    out1.push(MkToken::FunctionClose);
                    k = k - 1;
                    proof {
                        assert(views(out1@) =~= views(pre).push(rem[0]));
                        assert(fwd(rem, k as int + 1) == seq![rem[0]] + fwd(rem.drop_first(), k as int));
                        assert(views(out1@) + fwd(a.skip(i + 1), k as int)
                            =~= views(pre) + fwd(rem, k as int + 1));
                    }
                } else {
                    proof {
                        reveal_strlit("]");
                    }
                    let lit: String = "]".to_owned();
                    proof {
                        assert(lit@ =~= seq![']']);
                    }
                    out1.push(MkToken::Char(lit));
                    proof {
                        assert(views(out1@) =~= views(pre).push(Tok::Chars(seq![']'])));
                        assert(fwd(rem, 0) == seq![Tok::Chars(seq![']'])] + fwd(rem.drop_first(), 0));
                        assert(views(out1@) + fwd(a.skip(i + 1), 0) =~= views(pre) + fwd(rem, 0));
                    }
                }
            },
            _ => {
                out1.push(t.dup());
                proof {
                    assert(views(out1@) =~= views(pre).push(rem[0]));
                    assert(fwd(rem, k as int) == seq![rem[0]] + fwd(rem.drop_first(), k as int));
                    assert(views(out1@) + fwd(a.skip(i + 1), k as int)
                        =~= views(pre) + fwd(rem, k as int));
                }
            },
        }
        i = i + 1;
    }
    proof {
        assert(a.skip(n as int) =~= Seq::<Tok>::empty());
        assert(fwd(Seq::<Tok>::empty(), k as int) =~= Seq::<Tok>::empty());
        assert(views(out1@) + Seq::<Tok>::empty() =~= views(out1@));
    }
    out1
}

/// The backward repair pass: an unmatched open becomes a literal token
/// carrying its entire original matched text.
fn bwd_pass(toks: &Vec<MkToken>) -> (out: Vec<MkToken>)
    ensures
        views(out@) == bwd(views(toks@), 0),
{
    let ghost b = views(toks@);
    let n = toks.len();
    let mut out2: Vec<MkToken> = Vec::new();
    let mut k: usize = 0;
    let mut i: usize = n;
    proof {
        assert(b.take(n as int) =~= b);
        assert(bwd(b.take(n as int), 0) + views(out2@) =~= bwd(b, 0));
    }
    while i > 0
        invariant
            i <= n,
            k <= n - i,
            n == toks@.len(),
            b == views(toks@),
            bwd(b.take(i as int), k as int) + views(out2@) == bwd(b, 0),
        decreases i,
    {
        let ghost tk = b.take(i as int);
        proof {
            assert(tk.last() == b[i - 1]);
            assert(tk.drop_last() =~= b.take(i - 1));
        }
        let t = &toks[i - 1];
        let ghost pre = out2@;
        match t {
            MkToken::FunctionClose => {
                out2.insert(0, MkToken::FunctionClose);
                k = k + 1;
                proof {
                    assert(views(out2@) =~= seq![b[i - 1]] + views(pre));
                    assert(bwd(tk, k as int - 1) == bwd(tk.drop_last(), k as int) + seq![tk.last()]);
                    assert(bwd(b.take(i - 1), k as int) + views(out2@)
                        =~= bwd(tk, k as int - 1) + views(pre));
                }
            },
            MkToken::FunctionOpen { all, .. } => {
                if k > 0 {
                    out2.insert(0, t.dup());
                    k = k - 1;
                    proof {
                        assert(views(out2@) =~= seq![b[i - 1]] + views(pre));
                        assert(bwd(tk, k as int + 1) == bwd(tk.drop_last(), k as int) + seq![tk.last()]);
                        assert(bwd(b.take(i - 1), k as int) + views(out2@)
                            =~= bwd(tk, k as int + 1) + views(pre));
                    }
                } else {
                    let lit = all.clone();
                    out2.insert(0, MkToken::Char(lit));
                    proof {
                        assert(views(out2@) =~= seq![Tok::Chars(tk.last()->FunctionOpen_all)] + views(pre));
                        assert(bwd(tk, 0) == bwd(tk.drop_last(), 0)
                            + seq![Tok::Chars(tk.last()->FunctionOpen_all)]);
                        assert(bwd(b.take(i - 1), 0) + views(out2@) =~= bwd(tk, 0) + views(pre));
                    }
                }
            },
            _ => {
                out2.insert(0, t.dup());
                proof {
                    assert(views(out2@) =~= seq![b[i - 1]] + views(pre));
                    assert(bwd(tk, k as int) == bwd(tk.drop_last(), k as int) + seq![tk.last()]);
                    assert(bwd(b.take(i - 1), k as int) + views(out2@)
                        =~= bwd(tk, k as int) + views(pre));
                }
            },
        }
        i = i - 1;
    }
    proof {
        assert(b.take(0) =~= Seq::<Tok>::empty());
        assert(bwd(Seq::<Tok>::empty(), k as int) =~= Seq::<Tok>::empty());
        assert(Seq::<Tok>::empty() + views(out2@) =~= views(out2@));
    }
    out2
}

/// Repairs a token stream: the forward pass downgrades unmatched closes to
/// literal `]` tokens, the backward pass downgrades unmatched opens to
/// literal tokens carrying their whole matched text.
pub fn repair(toks: &Vec<MkToken>) -> (out: Vec<MkToken>)
    ensures
        views(out@) == spec_repair(views(toks@)),
{
    let mid = fwd_pass(toks);
    bwd_pass(&mid)
}

} // verus!

verus! {

/// Merges consecutive literal-character tokens into single literal runs.
pub fn merge_runs(toks: &Vec<MkToken>) -> (out: Vec<MkToken>)
    ensures
        views(out@) == spec_merge(views(toks@)),
{
    let ghost a = views(toks@);
    let n = toks.len();
    let mut out: Vec<MkToken> = Vec::new();
    let mut i: usize = 0;
    proof {
        assert(a.skip(0) =~= a);
        assert(views(out@) =~= Seq::<Tok>::empty());
    }
    while i < n
        invariant
            i <= n,
            n == toks@.len(),
            a == views(toks@),
            spec_merge(a) == merge_acc(views(out@), a.skip(i as int)),
        decreases n - i,
    {
        let ghost rem = a.skip(i as int);
        proof {
            assert(rem[0] == a[i as int]);
            assert(rem.drop_first() =~= a.skip(i + 1));
        }
        let t = &toks[i];
        let ghost pre = views(out@);
        let mut fused = false;
        match t {
            MkToken::Char(sb) => {
                let l = out.len();
                if l > 0 {
                    let is_run = match &out[l - 1] {
                        MkToken::Char(_) => true,
                        _ => false,
                    };
                    if is_run {
                        let popped = out.pop().unwrap();
                        let merged = match popped {
                            MkToken::Char(prefix) => {
                                let mut run = prefix;
                                run.append(sb.as_str());
                                MkToken::Char(run)
                            },
                            other => other,
                        };
                        out.push(merged);
                        fused = true;
                        proof {
                            assert(views(out@) =~= pre.drop_last().push(
                                Tok::Chars(pre.last()->Chars_0 + rem[0]->Chars_0)));
                        }
                    }
                }
                if !fused {
                    out.push(MkToken::Char(sb.clone()));
                    proof {
                        assert(views(out@) =~= pre.push(rem[0]));
                    }
                }
            },
            _ => {
                out.push(t.dup());
                proof {
                    assert(views(out@) =~= pre.push(rem[0]));
                }
            },
        }
        i = i + 1;
    }
    proof {
        assert(a.skip(n as int) =~= Seq::<Tok>::empty());
    }
    out
}

/// Decides whether a stack walk over a token stream never underflows and
/// ends with an empty stack.
pub fn stream_balanced(toks: &Vec<MkToken>) -> (b: bool)
    ensures
        b == balanced(views(toks@)),
{
    let ghost a = views(toks@);
    let n = toks.len();
    let mut d: usize = 0;
    let mut i: usize = 0;
    proof {
        assert(a.take(0) =~= Seq::<Tok>::empty());
        assert(opens(Seq::<Tok>::empty()) == 0);
        assert(closes(Seq::<Tok>::empty()) == 0);
    }
    while i < n
        invariant
            i <= n,
            d <= i,
            n == toks@.len(),
            a == views(toks@),
            scan_ok(a.take(i as int), 0),
            d as int == opens(a.take(i as int)) - closes(a.take(i as int)),
        decreases n - i,
    {
        let ghost tk = a.take(i as int);
        let ghost tk1 = a.take(i + 1);
        proof {
            assert(tk1 =~= tk + seq![a[i as int]]);
            lemma_counts_single(a[i as int]);
            lemma_counts_app(tk, seq![a[i as int]]);
            lemma_scan_ok_app(tk, seq![a[i as int]], 0);
            lemma_scan_ok_single(a[i as int], d as int);
        }
        let t = &toks[i];
        match t {
            MkToken::FunctionOpen { .. } => {
                d = d + 1;
            },
            MkToken::FunctionClose => {
                if d == 0 {
                    proof {
                        lemma_scan_ok_app(tk1, a.skip(i + 1), 0);
                        assert(a =~= tk1 + a.skip(i + 1));
                        assert(!scan_ok(a, 0));
                    }
                    return false;
                }
                d = d - 1;
            },
            _ => {},
        }
        i = i + 1;
    }
    proof {
        assert(a.take(n as int) =~= a);
    }
    d == 0
}

} // verus!

verus! {

/// The repaired, merged token stream of one raw text.
pub open spec fn spec_pipeline(s: Seq<char>) -> Seq<Tok> {
    spec_merge(spec_repair(crate::lexer::lex_from(s, 0)))
}

/// Lexes a text and repairs and merges its token stream.
pub fn process_text(input: &str) -> (out: Vec<MkToken>)
    ensures
        views(out@) == spec_pipeline(input@),
        balanced(views(out@)),
{
    let toks = crate::lexer::lex(input);
    let repaired = repair(&toks);
    proof {
        lemma_repair_balanced(views(toks@));
        lemma_merge_balance(views(repaired@));
    }
    merge_runs(&repaired)
}

/// The full pipeline never drops or duplicates characters: rendering the
/// repaired, merged token stream reproduces the raw input exactly.
pub proof fn lemma_pipeline_render(s: Seq<char>)
    ensures
        render(spec_pipeline(s)) == s,
{
    crate::lexer::lemma_lex_round_trip(s);
    lemma_repair_render(crate::lexer::lex_from(s, 0));
    lemma_merge_transparent(spec_repair(crate::lexer::lex_from(s, 0)));
}

/// Merging preserves the well-nesting of a stream.
proof fn lemma_merge_acc_balance(acc: Seq<Tok>, rest: Seq<Tok>)
    ensures
        opens(merge_acc(acc, rest)) == opens(acc) + opens(rest),
        closes(merge_acc(acc, rest)) == closes(acc) + closes(rest),
        forall|d: int| scan_ok(acc + rest, d) == #[trigger] scan_ok(merge_acc(acc, rest), d),
    decreases rest.len(),
{
    if rest.len() == 0 {
        assert(acc + rest =~= acc);
    } else {
        let t = rest[0];
        let acc2 = match t {
            Tok::Chars(b) => if acc.len() > 0 && acc.last() is Chars {
                acc.drop_last().push(Tok::Chars(acc.last()->Chars_0 + b))
            } else {
                acc.push(t)
            },
            _ => acc.push(t),
        };
        lemma_merge_acc_balance(acc2, rest.drop_first());
        lemma_counts_single(t);
        lemma_counts_app(acc, seq![t]);
        assert(rest =~= seq![t] + rest.drop_first());
        lemma_counts_app(seq![t], rest.drop_first());
        match t {
            Tok::Chars(b) => {
                if acc.len() > 0 && acc.last() is Chars {
                    let last = acc.last();
                    let m = Tok::Chars(last->Chars_0 + b);
                    assert(acc =~= acc.drop_last() + seq![last]);
                    lemma_counts_app(acc.drop_last(), seq![last]);
                    lemma_counts_single(last);
                    assert(acc2 =~= acc.drop_last() + seq![m]);
                    lemma_counts_app(acc.drop_last(), seq![m]);
                    lemma_counts_single(m);
                    assert forall|d: int| scan_ok(acc + rest, d)
                        == #[trigger] scan_ok(acc2 + rest.drop_first(), d) by {
                        lemma_scan_ok_app(acc, rest, d);
                        lemma_scan_ok_app(acc2, rest.drop_first(), d);
                        lemma_scan_ok_app(acc.drop_last(), seq![last], d);
                        lemma_scan_ok_app(acc.drop_last(), seq![m], d);
                        lemma_scan_ok_single(last, d + opens(acc.drop_last()) - closes(acc.drop_last()));
                        lemma_scan_ok_single(m, d + opens(acc.drop_last()) - closes(acc.drop_last()));
                        lemma_scan_ok_single(t, d + opens(acc) - closes(acc));
                        lemma_scan_ok_app(seq![t], rest.drop_first(), d + opens(acc) - closes(acc));
                    }
                } else {
                    assert(acc2 =~= acc + seq![t]);
                    assert forall|d: int| scan_ok(acc + rest, d)
                        == #[trigger] scan_ok(acc2 + rest.drop_first(), d) by {
                        lemma_scan_ok_app(acc, rest, d);
                        lemma_scan_ok_app(acc2, rest.drop_first(), d);
                        lemma_scan_ok_app(acc, seq![t], d);
                        lemma_scan_ok_single(t, d + opens(acc) - closes(acc));
                        lemma_scan_ok_app(seq![t], rest.drop_first(), d + opens(acc) - closes(acc));
                    }
                }
            },
            _ => {
                assert(acc2 =~= acc + seq![t]);
                assert forall|d: int| scan_ok(acc + rest, d)
                    == #[trigger] scan_ok(acc2 + rest.drop_first(), d) by {
                    lemma_scan_ok_app(acc, rest, d);
                    lemma_scan_ok_app(acc2, rest.drop_first(), d);
                    lemma_scan_ok_app(acc, seq![t], d);
                    lemma_scan_ok_single(t, d + opens(acc) - closes(acc));
                    lemma_scan_ok_app(seq![t], rest.drop_first(), d + opens(acc) - closes(acc));
                }
            },
        }
    }
}

/// A balanced stream stays balanced through run merging.
pub proof fn lemma_merge_balance(s: Seq<Tok>)
    requires
        balanced(s),
    ensures
        balanced(spec_merge(s)),
{
    lemma_merge_acc_balance(Seq::empty(), s);
    assert(Seq::<Tok>::empty() + s =~= s);
    assert(opens(Seq::<Tok>::empty()) == 0);
    assert(closes(Seq::<Tok>::empty()) == 0);
}

} // verus!
