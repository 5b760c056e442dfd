//! Finite-automaton scanner: raw text to a stream of literal, emoji and
//! function-marker tokens, by longest match at each position.

use vstd::prelude::*;

verus! {

/// Mathematical model of a [`MkToken`].
pub enum Tok {
    Emoji(Seq<char>),
    FunctionOpen { all: Seq<char>, name: Seq<char>, args: Seq<(Seq<char>, Option<Seq<char>>)> },
    FunctionClose,
    Chars(Seq<char>),
}

/// A lexical token. `Char` holds a single character at lex time; after run
/// merging it holds a maximal run of literal characters.
#[derive(Debug)]
pub enum MkToken {
    Emoji(String),
    FunctionOpen { all: String, name: String, args: Vec<(String, Option<String>)> },
    FunctionClose,
    Char(String),
}

/// Views of an argument list: each key with its optional value.
pub open spec fn args_views(s: Seq<(String, Option<String>)>) -> Seq<(Seq<char>, Option<Seq<char>>)> {
    s.map_values(|p: (String, Option<String>)| (p.0@, match p.1 { Option::Some(v) => Option::Some(v@), Option::None => Option::None }))
}

impl View for MkToken {
    type V = Tok;

    open spec fn view(&self) -> Tok {
        match self {
            MkToken::Emoji(s) => Tok::Emoji(s@),
            MkToken::FunctionOpen { all, name, args } => Tok::FunctionOpen {
                all: all@,
                name: name@,
                args: args_views(args@),
            },
            MkToken::FunctionClose => Tok::FunctionClose,
            MkToken::Char(s) => Tok::Chars(s@),
        }
    }
}

/// Copies an argument list; the copy has the same views.
pub fn clone_args(args: &Vec<(String, Option<String>)>) -> (out: Vec<(String, Option<String>)>)
    ensures
        args_views(out@) == args_views(args@),
{
    let mut args2: Vec<(String, Option<String>)> = Vec::new();
    let mut i: usize = 0;
    proof {
        assert(args_views(args2@) =~= args_views(args@).take(0));
    }
    while i < args.len()
        invariant
            i <= args.len(),
            args_views(args2@) == args_views(args@).take(i as int),
        decreases args.len() - i,
    {
        let key = args[i].0.clone();
        let val = match &args[i].1 {
            Option::Some(v) => Option::Some(v.clone()),
            Option::None => Option::None,
        };
        let ghost pre = args2@;
        let ghost entry = args_views(args@)[i as int];
        args2.push((key, val));
        proof {
            assert(args_views(args2@)[pre.len() as int] == entry);
            assert(args_views(args2@) =~= args_views(pre).push(entry));
            assert(args_views(args@).take(i + 1)
                =~= args_views(args@).take(i as int).push(entry));
            assert(args_views(args2@) =~= args_views(args@).take(i + 1));
        }
        i = i + 1;
    }
    proof {
        assert(args_views(args@).take(args@.len() as int) =~= args_views(args@));
    }
    args2
}

impl MkToken {
    /// Copies the token; the copy has the same model.
    pub fn dup(&self) -> (r: Self)
        ensures
            r@ == self@,
    {
        match self {
            MkToken::Emoji(s) => MkToken::Emoji(s.clone()),
            MkToken::FunctionOpen { all, name, args } => MkToken::FunctionOpen {
                all: all.clone(),
                name: name.clone(),
                args: clone_args(args),
            },
            MkToken::FunctionClose => MkToken::FunctionClose,
            MkToken::Char(s) => MkToken::Char(s.clone()),
        }
    }
}

impl Clone for MkToken {
    /// The copy has the same model.
    fn clone(&self) -> (r: Self)
        ensures
            r@ == self@,
    {
        self.dup()
    }
}

/// Views of a token stream.
pub open spec fn views(ts: Seq<MkToken>) -> Seq<Tok> {
    ts.map_values(|t: MkToken| t@)
}

/// The character classes of the lexical grammar.
#[derive(Clone, Copy, Debug)]
pub enum CharClass {
    /// Function and parameter names: ASCII alphanumeric.
    Name,
    /// Emoji names: ASCII alphanumeric or underscore.
    EmojiName,
    /// Parameter values: ASCII alphanumeric, `-` or `.`.
    Value,
}

/// Whether `c` belongs to class `cls`.
pub open spec fn in_class(cls: CharClass, c: char) -> bool {
    let u = c as u32;
    let alnum = (48 <= u && u <= 57) || (65 <= u && u <= 90) || (97 <= u && u <= 122);
    match cls {
        CharClass::Name => alnum,
        CharClass::EmojiName => alnum || u == 95,
        CharClass::Value => alnum || u == 45 || u == 46,
    }
}

/// Whether `c` is a whitespace character (ASCII space or `\t`..`\r`).
pub open spec fn is_space(c: char) -> bool {
    let u = c as u32;
    u == 32 || (9 <= u && u <= 13)
}

/// Length of the maximal run of class-`cls` characters starting at `i`.
pub open spec fn run_len(s: Seq<char>, i: int, cls: CharClass) -> nat
    decreases s.len() - i when i <= s.len()
{
    if 0 <= i < s.len() && in_class(cls, s[i]) {
        (1 + run_len(s, i + 1, cls)) as nat
    } else {
        0
    }
}

/// Length of an emoji token (`:name:`) starting at `i`, if one matches there.
pub open spec fn emoji_len_at(s: Seq<char>, i: int) -> Option<nat> {
    if 0 <= i < s.len() && s[i] == ':' {
        let k = run_len(s, i + 1, CharClass::EmojiName);
        if k >= 1 && i + 1 + k < s.len() && s[i + 1 + k] == ':' {
            Option::Some((k + 2) as nat)
        } else {
            Option::None
        }
    } else {
        Option::None
    }
}

/// Length of a parameter list `key(=value)?(,key(=value)?)*` starting at `i`,
/// including the one whitespace character that closes the function-open
/// marker, if the list matches there.
pub open spec fn params_len_from(s: Seq<char>, i: int) -> Option<nat>
    decreases s.len() - i when 0 <= i
{
    let kl = run_len(s, i, CharClass::Name);
    if kl == 0 {
        Option::None
    } else {
        let j = i + kl;
        if j < s.len() && s[j] == '=' {
            let vl = run_len(s, j + 1, CharClass::Value);
            if vl == 0 {
                Option::None
            } else {
                let j2 = j + 1 + vl;
                if j2 < s.len() && s[j2] == ',' {
                    match params_len_from(s, j2 + 1) {
                        Option::Some(rest) => Option::Some((j2 + 1 - i + rest) as nat),
                        Option::None => Option::None,
                    }
                } else if j2 < s.len() && is_space(s[j2]) {
                    Option::Some((j2 + 1 - i) as nat)
                } else {
                    Option::None
                }
            }
        } else if j < s.len() && s[j] == ',' {
            match params_len_from(s, j + 1) {
                Option::Some(rest) => Option::Some((j + 1 - i + rest) as nat),
                Option::None => Option::None,
            }
        } else if j < s.len() && is_space(s[j]) {
            Option::Some((j + 1 - i) as nat)
        } else {
            Option::None
        }
    }
}

/// The raw `(key, value)` entries of a parameter list starting at `i`, in
/// source order, duplicates kept. Meaningful where [`params_len_from`] matches.
pub open spec fn raw_args_from(s: Seq<char>, i: int) -> Seq<(Seq<char>, Option<Seq<char>>)>
    decreases s.len() - i when 0 <= i
{
    let kl = run_len(s, i, CharClass::Name);
    if kl == 0 {
        Seq::empty()
    } else {
        let key = s.subrange(i, i + kl);
        let j = i + kl;
        if j < s.len() && s[j] == '=' {
            let vl = run_len(s, j + 1, CharClass::Value);
            if vl == 0 {
                Seq::empty()
            } else {
                let v = s.subrange(j + 1, j + 1 + vl);
                let j2 = j + 1 + vl;
                if j2 < s.len() && s[j2] == ',' {
                    seq![(key, Option::Some(v))] + raw_args_from(s, j2 + 1)
                } else {
                    seq![(key, Option::Some(v))]
                }
            }
        } else {
            if j < s.len() && s[j] == ',' {
                seq![(key, Option::<Seq<char>>::None)] + raw_args_from(s, j + 1)
            } else {
                seq![(key, Option::<Seq<char>>::None)]
            }
        }
    }
}

/// Inserts one entry into an assembled argument list: a duplicate key
/// overwrites the value but keeps the key's original position.
pub open spec fn insert_arg(
    acc: Seq<(Seq<char>, Option<Seq<char>>)>,
    key: Seq<char>,
    val: Option<Seq<char>>,
) -> Seq<(Seq<char>, Option<Seq<char>>)> {
    if exists|k: int| 0 <= k < acc.len() && acc[k].0 == key {
        let k = choose|k: int| 0 <= k < acc.len() && acc[k].0 == key;
        acc.update(k, (key, val))
    } else {
        acc.push((key, val))
    }
}

/// Folds raw entries in order into the final argument list.
pub open spec fn assemble_args(raw: Seq<(Seq<char>, Option<Seq<char>>)>) -> Seq<(Seq<char>, Option<Seq<char>>)>
    decreases raw.len()
{
    if raw.len() == 0 {
        raw
    } else {
        insert_arg(assemble_args(raw.drop_last()), raw.last().0, raw.last().1)
    }
}

/// No two entries share a key.
pub open spec fn distinct_keys(args: Seq<(Seq<char>, Option<Seq<char>>)>) -> bool {
    forall|k1: int, k2: int| 0 <= k1 < k2 < args.len() ==> args[k1].0 != args[k2].0
}

/// Length of the function name of a function-open marker starting at `i`.
pub open spec fn name_len_at(s: Seq<char>, i: int) -> nat {
    run_len(s, i + 2, CharClass::Name)
}

/// Length of a function-open marker (`$[name(.params)? ` up to and including
/// its one trailing whitespace character) starting at `i`, if one matches.
pub open spec fn open_len_at(s: Seq<char>, i: int) -> Option<nat> {
    if 0 <= i && i + 1 < s.len() && s[i] == '$' && s[i + 1] == '[' {
        let nl = run_len(s, i + 2, CharClass::Name);
        if nl == 0 {
            Option::None
        } else {
            let j = i + 2 + nl;
            if j < s.len() && s[j] == '.' {
                match params_len_from(s, j + 1) {
                    Option::Some(pl) => Option::Some((3 + nl + pl) as nat),
                    Option::None => Option::None,
                }
            } else if j < s.len() && is_space(s[j]) {
                Option::Some((3 + nl) as nat)
            } else {
                Option::None
            }
        }
    } else {
        Option::None
    }
}

/// The argument list of the function-open marker starting at `i`.
pub open spec fn open_args_at(s: Seq<char>, i: int) -> Seq<(Seq<char>, Option<Seq<char>>)> {
    let j = i + 2 + name_len_at(s, i);
    if j < s.len() && s[j] == '.' {
        assemble_args(raw_args_from(s, j + 1))
    } else {
        Seq::empty()
    }
}

/// Length of the token starting at position `i`: the longest rule match, one
/// literal character where no other rule matches.
pub open spec fn token_len_at(s: Seq<char>, i: int) -> nat {
    match emoji_len_at(s, i) {
        Option::Some(l) => l,
        Option::None => match open_len_at(s, i) {
            Option::Some(l) => l,
            Option::None => 1,
        },
    }
}

/// The token starting at position `i`.
pub open spec fn token_at(s: Seq<char>, i: int) -> Tok {
    match emoji_len_at(s, i) {
        Option::Some(l) => Tok::Emoji(s.subrange(i, i + l)),
        Option::None => match open_len_at(s, i) {
            Option::Some(l) => Tok::FunctionOpen {
                all: s.subrange(i, i + l),
                name: s.subrange(i + 2, i + 2 + name_len_at(s, i)),
                args: open_args_at(s, i),
            },
            Option::None => if s[i] == ']' {
                Tok::FunctionClose
            } else {
                Tok::Chars(s.subrange(i, i + 1))
            },
        },
    }
}

/// The token stream of `s` from position `i` on.
pub open spec fn lex_from(s: Seq<char>, i: int) -> Seq<Tok>
    decreases s.len() - i when 0 <= i via lex_from_dec
{
    if i >= s.len() {
        Seq::empty()
    } else {
        seq![token_at(s, i)] + lex_from(s, i + token_len_at(s, i))
    }
}

#[via_fn]
proof fn lex_from_dec(s: Seq<char>, i: int) {
    if 0 <= i < s.len() {
        lemma_token_len_bounds(s, i);
    }
}

/// The exact text a token stands for.
pub open spec fn tok_text(t: Tok) -> Seq<char> {
    match t {
        Tok::Emoji(s) => s,
        Tok::FunctionOpen { all, .. } => all,
        Tok::FunctionClose => seq![']'],
        Tok::Chars(s) => s,
    }
}

/// The concatenated text of a token stream.
pub open spec fn render(ts: Seq<Tok>) -> Seq<char>
    decreases ts.len()
{
    if ts.len() == 0 {
        Seq::empty()
    } else {
        tok_text(ts[0]) + render(ts.drop_first())
    }
}

/// A parameter list that matches ends inside the text.
proof fn lemma_params_len_bounds(s: Seq<char>, i: int)
    requires
        0 <= i,
        params_len_from(s, i) is Some,
    ensures
        i + params_len_from(s, i)->Some_0 <= s.len(),
    decreases s.len() - i,
{
    let kl = run_len(s, i, CharClass::Name);
    let j = i + kl;
    if j < s.len() && s[j] == '=' {
        let vl = run_len(s, j + 1, CharClass::Value);
        let j2 = j + 1 + vl;
        if j2 < s.len() && s[j2] == ',' {
            lemma_params_len_bounds(s, j2 + 1);
        }
    } else if j < s.len() && s[j] == ',' {
        lemma_params_len_bounds(s, j + 1);
    }
}

/// A token that starts inside the text ends inside the text.
proof fn lemma_token_len_bounds(s: Seq<char>, i: int)
    requires
        0 <= i < s.len(),
    ensures
        1 <= token_len_at(s, i),
        i + token_len_at(s, i) <= s.len(),
{
    match emoji_len_at(s, i) {
        Option::Some(l) => {}
        Option::None => match open_len_at(s, i) {
            Option::Some(l) => {
                let nl = run_len(s, i + 2, CharClass::Name);
                let j = i + 2 + nl;
                if j < s.len() && s[j] == '.' {
                    lemma_params_len_bounds(s, j + 1);
                }
            }
            Option::None => {}
        },
    }
}

/// The token at `i` renders to exactly the text it was scanned from.
proof fn lemma_token_text_at(s: Seq<char>, i: int)
    requires
        0 <= i < s.len(),
    ensures
        tok_text(token_at(s, i)) =~= s.subrange(i, i + token_len_at(s, i)),
{
    match emoji_len_at(s, i) {
        Option::Some(l) => {}
        Option::None => match open_len_at(s, i) {
            Option::Some(l) => {}
            Option::None => {
                if s[i] == ']' {
                    assert(tok_text(token_at(s, i)) =~= s.subrange(i, i + 1));
                }
            }
        },
    }
}

/// Lexical round trip: the rendition of the token stream from position `i`
/// reproduces the text from `i` on, character for character.
pub proof fn lemma_lex_round_trip_from(s: Seq<char>, i: int)
    requires
        0 <= i <= s.len(),
    ensures
        render(lex_from(s, i)) =~= s.subrange(i, s.len() as int),
    decreases s.len() - i,
{
    if i >= s.len() {
    } else {
        let tl = token_len_at(s, i) as int;
        lemma_token_len_bounds(s, i);
        lemma_token_text_at(s, i);
        lemma_lex_round_trip_from(s, i + tl);
        let ts = lex_from(s, i);
        assert(ts[0] == token_at(s, i));
        assert(ts.drop_first() =~= lex_from(s, i + tl));
        assert(render(ts) == tok_text(token_at(s, i)) + render(lex_from(s, i + tl)));
        assert(s.subrange(i, i + tl) + s.subrange(i + tl, s.len() as int)
            =~= s.subrange(i, s.len() as int));
    }
}

/// Lexical round trip: concatenating the rendition of every token the lexer
/// produces reproduces the input exactly, for arbitrary input.
pub proof fn lemma_lex_round_trip(s: Seq<char>)
    ensures
        render(lex_from(s, 0)) == s,
{
    lemma_lex_round_trip_from(s, 0);
    assert(s.subrange(0, s.len() as int) =~= s);
}

} // verus!

// === Executable scanner ===

verus! {

/// Maximal class runs computed by a scan match [`run_len`] exactly.
proof fn lemma_run_exact(s: Seq<char>, cls: CharClass, start: int, j: int)
    requires
        0 <= start <= j <= s.len(),
        forall|m: int| start <= m < j ==> in_class(cls, s[m]),
        j == s.len() || !in_class(cls, s[j]),
    ensures
        run_len(s, start, cls) == j - start,
    decreases j - start,
{
    if start < j {
        lemma_run_exact(s, cls, start + 1, j);
    }
}

/// Rendition splits over concatenation.
pub proof fn lemma_render_app(a: Seq<Tok>, b: Seq<Tok>)
    ensures
        render(a + b) =~= render(a) + render(b),
    decreases a.len(),
{
    if a.len() == 0 {
        assert(a + b =~= b);
        assert(render(a) =~= Seq::<char>::empty());
        assert(render(a) + render(b) =~= render(b));
    } else {
        assert((a + b)[0] == a[0]);
        assert((a + b).drop_first() =~= a.drop_first() + b);
        lemma_render_app(a.drop_first(), b);
    }
}

fn class_char(c: char, cls: CharClass) -> (b: bool)
    ensures
        b == in_class(cls, c),
{
    let u = c as u32;
    let alnum = (48 <= u && u <= 57) || (65 <= u && u <= 90) || (97 <= u && u <= 122);
    match cls {
        CharClass::Name => alnum,
        CharClass::EmojiName => alnum || u == 95,
        CharClass::Value => alnum || u == 45 || u == 46,
    }
}

fn space_char(c: char) -> (b: bool)
    ensures
        b == is_space(c),
{
    let u = c as u32;
    u == 32 || (9 <= u && u <= 13)
}

/// Scans the maximal run of class-`cls` characters from `start`.
fn scan_class(s: &str, start: usize, n: usize, cls: CharClass) -> (j: usize)
    requires
        start <= n,
        n == s@.len(),
    ensures
        start <= j <= n,
        j - start == run_len(s@, start as int, cls),
{
    let mut j = start;
    while j < n && class_char(s.get_char(j), cls)
        invariant
            start <= j <= n,
            n == s@.len(),
            forall|m: int| start <= m < j ==> in_class(cls, s@[m]),
        decreases n - j,
    {
        j = j + 1;
    }
    proof {
        lemma_run_exact(s@, cls, start as int, j as int);
    }
    j
}

} // verus!

verus! {

/// Scans one parameter list from `p`, appending its raw entries to `out`.
/// Returns the position right after the trailing whitespace on a match.
fn scan_params(s: &str, p: usize, n: usize, out: &mut Vec<(String, Option<String>)>) -> (r: Option<usize>)
    requires
        p <= n,
        n == s@.len(),
    ensures
        match r {
            Option::Some(e) => {
                &&& p < e <= n
                &&& params_len_from(s@, p as int) == Option::Some((e - p) as nat)
                &&& args_views(final(out)@) == args_views(old(out)@) + raw_args_from(s@, p as int)
            },
            Option::None => params_len_from(s@, p as int) is None,
        },
    decreases n - p,
{
    let kend = scan_class(s, p, n, CharClass::Name);
    if kend == p {
        return Option::None;
    }
    let key = s.substring_char(p, kend).to_owned();
    let ghost key_entry_none = (key@, Option::<Seq<char>>::None);
    let j = kend;
    if j < n && s.get_char(j) == '=' {
        let vend = scan_class(s, j + 1, n, CharClass::Value);
        if vend == j + 1 {
            return Option::None;
        }
        let val = s.substring_char(j + 1, vend).to_owned();
        let ghost entry = (key@, Option::Some(val@));
        let j2 = vend;
        if j2 < n && s.get_char(j2) == ',' {
            let ghost pre = out@;
            out.push((key, Option::Some(val)));
            proof {
                assert(args_views(out@) =~= args_views(pre).push(entry));
            }
            match scan_params(s, j2 + 1, n, out) {
                Option::Some(e) => {
                    proof {
                        assert(args_views(out@) =~= args_views(pre)
                            + (seq![entry] + raw_args_from(s@, j2 + 1 as int)));
                    }
                    Option::Some(e)
                },
                Option::None => Option::None,
            }
        } else if j2 < n && space_char(s.get_char(j2)) {
            let ghost pre = out@;
            out.push((key, Option::Some(val)));
            proof {
                assert(args_views(out@) =~= args_views(pre) + seq![entry]);
            }
            Option::Some(j2 + 1)
        } else {
            Option::None
        }
    } else if j < n && s.get_char(j) == ',' {
        let ghost pre = out@;
        out.push((key, Option::None));
        proof {
            assert(args_views(out@) =~= args_views(pre).push(key_entry_none));
        }
        match scan_params(s, j + 1, n, out) {
            Option::Some(e) => {
                proof {
                    assert(args_views(out@) =~= args_views(pre)
                        + (seq![key_entry_none] + raw_args_from(s@, j + 1 as int)));
                }
                Option::Some(e)
            },
            Option::None => Option::None,
        }
    } else if j < n && space_char(s.get_char(j)) {
        let ghost pre = out@;
        out.push((key, Option::None));
        proof {
            assert(args_views(out@) =~= args_views(pre) + seq![key_entry_none]);
        }
        Option::Some(j + 1)
    } else {
        Option::None
    }
}

/// Folds raw entries into the final argument list: a duplicate key overwrites
/// the value but keeps the key's first position.
fn assemble(raw: &Vec<(String, Option<String>)>) -> (out: Vec<(String, Option<String>)>)
    ensures
        args_views(out@) == assemble_args(args_views(raw@)),
        distinct_keys(args_views(out@)),
{
    let mut out: Vec<(String, Option<String>)> = Vec::new();
    let ghost all = args_views(raw@);
    proof {
        assert(args_views(out@) =~= assemble_args(all.take(0)));
    }
    let mut i: usize = 0;
    while i < raw.len()
        invariant
            i <= raw.len(),
            all == args_views(raw@),
            args_views(out@) == assemble_args(all.take(i as int)),
            distinct_keys(args_views(out@)),
        decreases raw.len() - i,
    {
        let key = raw[i].0.clone();
        let val = match &raw[i].1 {
            Option::Some(v) => Option::Some(v.clone()),
            Option::None => Option::None,
        };
        let ghost ekey = key@;
        let ghost eval = match val { Option::Some(ref v) => Option::Some(v@), Option::None => Option::<Seq<char>>::None };
        let ghost pre = args_views(out@);
        // find the first entry with this key
        let mut k: usize = 0;
        let mut found = false;
        while k < out.len()
            invariant_except_break
                k <= out.len(),
                !found,
                ekey == key@,
                forall|m: int| 0 <= m < k ==> args_views(out@)[m].0 != ekey,
            ensures
                found ==> k < out.len() && args_views(out@)[k as int].0 == ekey,
                !found ==> forall|m: int| 0 <= m < out@.len() ==> args_views(out@)[m].0 != ekey,
            decreases out.len() - k,
        {
            if out[k].0 == key {
                found = true;
                break;
            }
            k = k + 1;
        }
        if found {
            out.set(k, (key, val));
            proof {
                let k0 = choose|k0: int| 0 <= k0 < pre.len() && pre[k0].0 == ekey;
                assert(pre[k as int].0 == ekey);
                assert(k0 == k as int);
                assert(args_views(out@) =~= pre.update(k as int, (ekey, eval)));
            }
        } else {
            out.push((key, val));
            proof {
                assert(forall|m: int| 0 <= m < pre.len() ==> pre[m].0 != ekey);
                assert(args_views(out@) =~= pre.push((ekey, eval)));
            }
        }
        proof {
            assert(all.take(i + 1).drop_last() =~= all.take(i as int));
            assert(all.take(i + 1).last() == all[i as int]);
            assert(all[i as int] == (ekey, eval));
            assert(args_views(out@) == assemble_args(all.take(i + 1)));
        }
        i = i + 1;
    }
    proof {
        assert(all.take(raw@.len() as int) =~= all);
    }
    out
}

/// Parses a function-open marker starting at `i` (where `s` holds `$` at `i`):
/// the full matched text, the function name, and the argument list.
pub fn parse_function_open(s: &str, i: usize, n: usize) -> (r: Option<(MkToken, usize)>)
    requires
        i < n,
        n == s@.len(),
        s@[i as int] == '$',
    ensures
        match r {
            Option::Some(te) => {
                &&& open_len_at(s@, i as int) == Option::Some((te.1 - i) as nat)
                &&& i < te.1 <= n
                &&& te.0@ == Tok::FunctionOpen {
                    all: s@.subrange(i as int, te.1 as int),
                    name: s@.subrange(i + 2, i + 2 + name_len_at(s@, i as int)),
                    args: open_args_at(s@, i as int),
                }
            },
            Option::None => open_len_at(s@, i as int) is None,
        },
{
    if i + 1 >= n {
        return Option::None;
    }
    if s.get_char(i + 1) != '[' {
        return Option::None;
    }
    let nend = scan_class(s, i + 2, n, CharClass::Name);
    if nend == i + 2 {
        return Option::None;
    }
    let name = s.substring_char(i + 2, nend).to_owned();
    let j = nend;
    if j < n && s.get_char(j) == '.' {
        let mut raw: Vec<(String, Option<String>)> = Vec::new();
        proof {
            assert(args_views(raw@) =~= Seq::<(Seq<char>, Option<Seq<char>>)>::empty());
        }
        match scan_params(s, j + 1, n, &mut raw) {
            Option::Some(e) => {
                proof {
                    assert(args_views(raw@) =~= raw_args_from(s@, j + 1 as int));
                }
                let args = assemble(&raw);
                let all = s.substring_char(i, e).to_owned();
                Option::Some((MkToken::FunctionOpen { all, name, args }, e))
            },
            Option::None => Option::None,
        }
    } else if j < n && space_char(s.get_char(j)) {
        let all = s.substring_char(i, j + 1).to_owned();
        let args: Vec<(String, Option<String>)> = Vec::new();
        proof {
            assert(args_views(args@) =~= Seq::<(Seq<char>, Option<Seq<char>>)>::empty());
        }
        Option::Some((MkToken::FunctionOpen { all, name, args }, j + 1))
    } else {
        Option::None
    }
}

/// Scans the single token starting at `i`: the longest rule match, else one
/// literal character.
fn next_token(s: &str, i: usize, n: usize) -> (r: (MkToken, usize))
    requires
        i < n,
        n == s@.len(),
    ensures
        r.0@ == token_at(s@, i as int),
        i < r.1 <= n,
        r.1 - i == token_len_at(s@, i as int),
{
    let c = s.get_char(i);
    if c == ':' {
        let kend = scan_class(s, i + 1, n, CharClass::EmojiName);
        if kend > i + 1 && kend < n && s.get_char(kend) == ':' {
            let text = s.substring_char(i, kend + 1).to_owned();
            return (MkToken::Emoji(text), kend + 1);
        }
        (MkToken::Char(s.substring_char(i, i + 1).to_owned()), i + 1)
    } else if c == '$' {
        match parse_function_open(s, i, n) {
            Option::Some(te) => te,
            Option::None => (MkToken::Char(s.substring_char(i, i + 1).to_owned()), i + 1),
        }
    } else if c == ']' {
        (MkToken::FunctionClose, i + 1)
    } else {
        (MkToken::Char(s.substring_char(i, i + 1).to_owned()), i + 1)
    }
}

/// Lexes raw text into its token stream, by longest match at each position.
pub fn lex(input: &str) -> (toks: Vec<MkToken>)
    ensures
        views(toks@) == lex_from(input@, 0),
{
    let n = input.unicode_len();
    let mut toks: Vec<MkToken> = Vec::new();
    let mut i: usize = 0;
    proof {
        assert(views(toks@) + lex_from(input@, 0) =~= lex_from(input@, 0));
    }
    while i < n
        invariant
            i <= n,
            n == input@.len(),
            views(toks@) + lex_from(input@, i as int) == lex_from(input@, 0),
        decreases n - i,
    {
        let (t, e) = next_token(input, i, n);
        let ghost pre = toks@;
        toks.push(t);
        proof {
            assert(views(toks@) =~= views(pre).push(toks@.last()@));
            assert(views(toks@) + lex_from(input@, e as int) =~= views(pre)
                + (seq![token_at(input@, i as int)] + lex_from(input@, e as int)));
        }
        i = e;
    }
    proof {
        assert(views(toks@) + lex_from(input@, i as int) =~= views(toks@));
    }
    toks
}

/// Renders a token stream back to text.
pub fn render_tokens(toks: &Vec<MkToken>) -> (out: String)
    ensures
        out@ == render(views(toks@)),
{
    let mut out = String::new();
    let ghost all = views(toks@);
    let mut i: usize = 0;
    proof {
        assert(all.take(0) =~= Seq::<Tok>::empty());
    }
    while i < toks.len()
        invariant
            i <= toks.len(),
            all == views(toks@),
            out@ == render(all.take(i as int)),
        decreases toks.len() - i,
    {
        match &toks[i] {
            MkToken::Emoji(s) => out.append(s.as_str()),
            MkToken::FunctionOpen { all: a, .. } => out.append(a.as_str()),
            MkToken::FunctionClose => {
                proof {
                    reveal_strlit("]");
                }
                out.append("]");
            },
            MkToken::Char(s) => out.append(s.as_str()),
        }
        proof {
            assert(all.take(i + 1) =~= all.take(i as int) + seq![all[i as int]]);
            lemma_render_app(all.take(i as int), seq![all[i as int]]);
            assert(seq![all[i as int]].drop_first() =~= Seq::<Tok>::empty());
            assert(render(Seq::<Tok>::empty()) =~= Seq::<char>::empty());
            assert(render(seq![all[i as int]]) =~= tok_text(all[i as int]));
            assert(out@ =~= render(all.take(i + 1)));
        }
        i = i + 1;
    }
    proof {
        assert(all.take(toks@.len() as int) =~= all);
    }
    out
}

} // verus!
