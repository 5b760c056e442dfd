use markov_notes::lexer::{lex, render_tokens, MkToken};
use markov_notes::repair::{merge_runs, repair, stream_balanced};

fn rendered(toks: &Vec<MkToken>) -> String {
    render_tokens(toks)
}

fn tok_eq(a: &MkToken, b: &MkToken) -> bool {
    match (a, b) {
        (MkToken::Emoji(x), MkToken::Emoji(y)) => x == y,
        (
            MkToken::FunctionOpen { all: a1, name: n1, args: g1 },
            MkToken::FunctionOpen { all: a2, name: n2, args: g2 },
        ) => a1 == a2 && n1 == n2 && g1 == g2,
        (MkToken::FunctionClose, MkToken::FunctionClose) => true,
        (MkToken::Char(x), MkToken::Char(y)) => x == y,
        _ => false,
    }
}

#[test]
fn round_trip_plain_text() {
    for s in [
        "hello world",
        "a$[b.x=1,y ]c]",
        ":smile: and :_u1:",
        "unmatched ] close $[open no space",
        "line\nbreaks\nstay",
        "",
        "$[x .y=2 ] ]",
    ] {
        let toks = lex(s);
        assert_eq!(rendered(&toks), s);
        let fixed = repair(&toks);
        assert_eq!(rendered(&fixed), s);
        let merged = merge_runs(&fixed);
        assert_eq!(rendered(&merged), s);
    }
}

#[test]
fn concrete_repair_example() {
    // the lexer sees one structural pair and one extra close
    let toks = lex("a$[b.x=1,y ]c]");
    assert_eq!(toks.len(), 5);
    assert!(matches!(&toks[0], MkToken::Char(c) if c == "a"));
    match &toks[1] {
        MkToken::FunctionOpen { all, name, args } => {
            assert_eq!(all, "$[b.x=1,y ");
            assert_eq!(name, "b");
            assert_eq!(args.len(), 2);
            assert_eq!(args[0].0, "x");
            assert_eq!(args[0].1.as_deref(), Some("1"));
            assert_eq!(args[1].0, "y");
            assert_eq!(args[1].1, None);
        }
        other => panic!("expected a function open, got {other:?}"),
    }
    assert!(matches!(&toks[2], MkToken::FunctionClose));
    assert!(matches!(&toks[3], MkToken::Char(c) if c == "c"));
    assert!(matches!(&toks[4], MkToken::FunctionClose));

    // after repair only the first open/close pair remains structural and
    // the trailing close is literal text; the rendition is unchanged
    let fixed = repair(&toks);
    assert_eq!(fixed.len(), 5);
    assert!(matches!(&fixed[1], MkToken::FunctionOpen { .. }));
    assert!(matches!(&fixed[2], MkToken::FunctionClose));
    assert!(matches!(&fixed[4], MkToken::Char(c) if c == "]"));
    assert_eq!(rendered(&fixed), "a$[b.x=1,y ]c]");
    assert!(stream_balanced(&fixed));
}

#[test]
fn emoji_lexing() {
    let toks = lex(":smile:x");
    assert_eq!(toks.len(), 2);
    assert!(matches!(&toks[0], MkToken::Emoji(e) if e == ":smile:"));
    assert!(matches!(&toks[1], MkToken::Char(c) if c == "x"));

    // an empty name is no emoji: two literal colons
    let toks = lex("::");
    assert_eq!(toks.len(), 2);
    assert!(matches!(&toks[0], MkToken::Char(c) if c == ":"));

    // underscores are allowed in emoji names, but not in function names
    let toks = lex(":a_b:");
    assert!(matches!(&toks[0], MkToken::Emoji(e) if e == ":a_b:"));
    let toks = lex("$[a_b ");
    assert!(matches!(&toks[0], MkToken::Char(c) if c == "$"));
}

#[test]
fn function_open_needs_trailing_whitespace() {
    let toks = lex("$[abc");
    assert!(matches!(&toks[0], MkToken::Char(c) if c == "$"));
    let toks = lex("$[abc\n");
    assert!(matches!(&toks[0], MkToken::FunctionOpen { name, .. } if name == "abc"));
}

#[test]
fn duplicate_keys_overwrite_but_keep_position() {
    let toks = lex("$[f.x=1,y,x=2 ");
    match &toks[0] {
        MkToken::FunctionOpen { name, args, .. } => {
            assert_eq!(name, "f");
            assert_eq!(args.len(), 2);
            assert_eq!(args[0].0, "x");
            assert_eq!(args[0].1.as_deref(), Some("2"));
            assert_eq!(args[1].0, "y");
        }
        other => panic!("expected a function open, got {other:?}"),
    }
}

#[test]
fn repair_is_idempotent() {
    for s in [
        "a$[b.x=1,y ]c]",
        "]]]",
        "$[a $[b ]",
        "no markup at all",
        "$[a ]x]$[b ",
    ] {
        let once = repair(&lex(s));
        let twice = repair(&once);
        assert_eq!(once.len(), twice.len());
        for (a, b) in once.iter().zip(twice.iter()) {
            assert!(tok_eq(a, b), "repair changed an already-repaired stream");
        }
    }
}

#[test]
fn repair_balances_every_stream() {
    for s in ["]]]", "$[a $[b ", "a$[b ]c]", "$[x ]]", "", "$[a ]"] {
        let fixed = repair(&lex(s));
        assert!(stream_balanced(&fixed), "unbalanced after repair: {s:?}");
        assert_eq!(rendered(&fixed), s);
    }
}

#[test]
fn merge_coalesces_literal_runs() {
    let merged = merge_runs(&repair(&lex("abc:e:de")));
    assert_eq!(merged.len(), 3);
    assert!(matches!(&merged[0], MkToken::Char(c) if c == "abc"));
    assert!(matches!(&merged[1], MkToken::Emoji(e) if e == ":e:"));
    assert!(matches!(&merged[2], MkToken::Char(c) if c == "de"));
}

#[test]
fn round_trip_multibyte_text() {
    for s in ["こんにちは$[f ]世界", "絵文字:smile:もどき", "波カッコ]と$["] {
        let toks = lex(s);
        assert_eq!(rendered(&toks), s);
        let fixed = repair(&toks);
        assert!(stream_balanced(&fixed));
        assert_eq!(rendered(&merge_runs(&fixed)), s);
    }
}
