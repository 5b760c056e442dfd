use markov_notes::builder::{doc_args_ok, doc_from_tokens, doc_stream_ok, doc_weight, DocToken, ModelBuilder};
use markov_notes::generator::{pick_weighted, sim};
use markov_notes::tokens::{FunctionParamValue, MarkovData, MarkovToken};

fn words(ws: &[&str]) -> DocToken {
    DocToken::Words(ws.iter().map(|w| w.to_string()).collect())
}

fn open(name: &str, args: &[(&str, Option<&str>)]) -> DocToken {
    DocToken::FunctionOpen {
        name: name.to_string(),
        args: args
            .iter()
            .map(|(k, v)| (k.to_string(), v.map(|x| x.to_string())))
            .collect(),
    }
}

fn count_of(data: &MarkovData, c: &MarkovToken, e: &MarkovToken) -> usize {
    data.token_map
        .iter()
        .filter(|(a, b, _)| a == c && b == e)
        .map(|(_, _, n)| *n)
        .sum()
}

fn param_count(data: &MarkovData, name: &str, key: &str, v: &FunctionParamValue) -> usize {
    data.function_param_map
        .iter()
        .filter(|(n, k, pv, _)| n == name && k == key && pv == v)
        .map(|(_, _, _, n)| *n)
        .sum()
}

#[test]
fn builder_records_transitions() {
    let doc = vec![
        open("f", &[("x", Some("1"))]),
        words(&["hi"]),
        DocToken::FunctionClose,
    ];
    assert!(doc_stream_ok(&doc));
    assert!(doc_args_ok(&doc));
    assert!(doc_weight(&doc).is_some());
    let mut b = ModelBuilder::new();
    b.add_document(&doc);
    let data = b.finish();

    let f_call = MarkovToken::FunctionCall("f".to_string());
    let f_body = MarkovToken::FunctionBody("f".to_string());
    let hi = MarkovToken::Word("hi".to_string());
    assert_eq!(count_of(&data, &MarkovToken::Start, &f_call), 1);
    assert_eq!(count_of(&data, &f_body, &hi), 1);
    assert_eq!(count_of(&data, &hi, &MarkovToken::End), 1);
    assert_eq!(count_of(&data, &f_call, &MarkovToken::End), 1);
    assert_eq!(data.token_map.len(), 4);
}

#[test]
fn emoji_and_words_chain_in_order() {
    let doc = vec![DocToken::Emoji(":e:".to_string()), words(&["a", "b"])];
    let mut b = ModelBuilder::new();
    b.add_document(&doc);
    let data = b.finish();
    let e = MarkovToken::Word(":e:".to_string());
    let a = MarkovToken::Word("a".to_string());
    let bb = MarkovToken::Word("b".to_string());
    assert_eq!(count_of(&data, &MarkovToken::Start, &e), 1);
    assert_eq!(count_of(&data, &e, &a), 1);
    assert_eq!(count_of(&data, &a, &bb), 1);
    assert_eq!(count_of(&data, &bb, &MarkovToken::End), 1);
}

#[test]
fn derived_absence_invariant() {
    // f invoked three times; x present twice (once with a value, once
    // without), y present once
    let docs = vec![
        vec![open("f", &[("x", Some("1"))]), DocToken::FunctionClose],
        vec![open("f", &[("x", None), ("y", Some("2"))]), DocToken::FunctionClose],
        vec![open("f", &[]), DocToken::FunctionClose],
    ];
    let mut b = ModelBuilder::new();
    for d in &docs {
        assert!(doc_stream_ok(d));
        assert!(doc_args_ok(d));
        b.add_document(d);
    }
    let data = b.finish();

    let absent = FunctionParamValue::Absent;
    let x_with = FunctionParamValue::PresentWithValue("1".to_string());
    let x_no = FunctionParamValue::PresentNoValue;
    let y_with = FunctionParamValue::PresentWithValue("2".to_string());

    assert_eq!(param_count(&data, "f", "x", &absent), 1);
    assert_eq!(param_count(&data, "f", "x", &x_with), 1);
    assert_eq!(param_count(&data, "f", "x", &x_no), 1);
    assert_eq!(param_count(&data, "f", "y", &absent), 2);
    assert_eq!(param_count(&data, "f", "y", &y_with), 1);

    // Absent + sum of present-state counts = total invocations, per key
    for key in ["x", "y"] {
        let present: usize = data
            .function_param_map
            .iter()
            .filter(|(n, k, pv, _)| n == "f" && k == key && *pv != FunctionParamValue::Absent)
            .map(|(_, _, _, n)| *n)
            .sum();
        assert_eq!(param_count(&data, "f", key, &absent) + present, 3);
    }
}

#[test]
fn counts_accumulate_across_documents() {
    let doc = vec![words(&["w"])];
    let mut b = ModelBuilder::new();
    b.add_document(&doc);
    b.add_document(&doc);
    let data = b.finish();
    let w = MarkovToken::Word("w".to_string());
    assert_eq!(count_of(&data, &MarkovToken::Start, &w), 2);
    assert_eq!(count_of(&data, &w, &MarkovToken::End), 2);
    assert_eq!(data.token_map.len(), 2);
}

#[test]
fn weighted_choice_bands() {
    // two candidates at counts 3 and 1: draws 0..3 pick the first,
    // draw 3 picks the second — a 3:1 proportion over all draws
    let a = MarkovToken::Word("a".to_string());
    let b = MarkovToken::Word("b".to_string());
    let cands = vec![
        (MarkovToken::Start, a, 3usize),
        (MarkovToken::Start, b, 1usize),
    ];
    assert_eq!(pick_weighted(&cands, 0), 0);
    assert_eq!(pick_weighted(&cands, 1), 0);
    assert_eq!(pick_weighted(&cands, 2), 0);
    assert_eq!(pick_weighted(&cands, 3), 1);
}

#[test]
fn sim_walks_a_deterministic_chain() {
    let hi = MarkovToken::Word("hi".to_string());
    let data = MarkovData {
        token_map: vec![
            (MarkovToken::Start, hi.clone(), 5),
            (hi, MarkovToken::End, 5),
        ],
        function_param_map: vec![],
    };
    for _ in 0..5 {
        assert_eq!(sim(&MarkovToken::Start, &data, 10, 1000), "hi");
    }
}

#[test]
fn sim_expands_functions_and_renders_markup() {
    let f_call = MarkovToken::FunctionCall("f".to_string());
    let f_body = MarkovToken::FunctionBody("f".to_string());
    let data = MarkovData {
        token_map: vec![
            (MarkovToken::Start, f_call.clone(), 1),
            (f_body, MarkovToken::End, 1),
            (f_call, MarkovToken::End, 1),
        ],
        function_param_map: vec![(
            "f".to_string(),
            "x".to_string(),
            FunctionParamValue::PresentWithValue("1".to_string()),
            1,
        )],
    };
    assert_eq!(sim(&MarkovToken::Start, &data, 10, 1000), "$[f.x=1 ]");
}

#[test]
fn sim_emits_no_function_call_at_depth_zero() {
    let f_call = MarkovToken::FunctionCall("f".to_string());
    let f_body = MarkovToken::FunctionBody("f".to_string());
    let data = MarkovData {
        token_map: vec![
            (MarkovToken::Start, f_call.clone(), 1),
            (f_body, MarkovToken::End, 1),
            (f_call, MarkovToken::End, 1),
        ],
        function_param_map: vec![],
    };
    // the only transition from Start is a call; at depth zero it is no
    // candidate, so the walk ends at once
    assert_eq!(sim(&MarkovToken::Start, &data, 0, 1000), "");
}

#[test]
fn sim_approximates_weights_over_many_trials() {
    let a = MarkovToken::Word("a".to_string());
    let b = MarkovToken::Word("b".to_string());
    let token_map = vec![
        (MarkovToken::Start, a.clone(), 3),
        (MarkovToken::Start, b.clone(), 1),
        (a, MarkovToken::End, 1),
        (b, MarkovToken::End, 1),
    ];
    let data = MarkovData { token_map, function_param_map: vec![] };
    let trials = 4000;
    let mut a_count = 0;
    for _ in 0..trials {
        if sim(&MarkovToken::Start, &data, 10, 1000) == "a" {
            a_count += 1;
        }
    }
    // expect about 3:1; allow a generous statistical tolerance
    assert!(a_count > 2600 && a_count < 3400, "a drawn {a_count} of {trials}");
}

#[test]
fn build_then_generate_round_trips_markup() {
    // lex + repair + merge a real text, feed the builder, and let the
    // generator reproduce the only possible walk
    let toks = markov_notes::repair::process_text("$[f.x=1 ]c");
    // one word list per literal run; a test segmenter that keeps runs whole
    let mut word_lists: Vec<Vec<String>> = Vec::new();
    for t in &toks {
        if let markov_notes::lexer::MkToken::Char(s) = t {
            word_lists.push(vec![s.clone()]);
        }
    }
    let doc = doc_from_tokens(&toks, &word_lists).expect("one word list per run");
    assert!(doc_stream_ok(&doc));
    assert!(doc_args_ok(&doc));
    let mut b = ModelBuilder::new();
    b.add_document(&doc);
    let data = b.finish();
    let out = sim(&MarkovToken::Start, &data, 10, 1000);
    assert_eq!(out, "$[f.x=1 ]c");
}

#[test]
fn sim_renders_parameters_in_first_seen_order() {
    let f_call = MarkovToken::FunctionCall("f".to_string());
    let f_body = MarkovToken::FunctionBody("f".to_string());
    let data = MarkovData {
        token_map: vec![
            (MarkovToken::Start, f_call.clone(), 1),
            (f_body, MarkovToken::End, 1),
            (f_call, MarkovToken::End, 1),
        ],
        function_param_map: vec![
            (
                "f".to_string(),
                "x".to_string(),
                FunctionParamValue::PresentWithValue("1".to_string()),
                1,
            ),
            ("f".to_string(), "y".to_string(), FunctionParamValue::PresentNoValue, 1),
        ],
    };
    // each key has a single positive value state, so the rendition is
    // forced: x first (first seen), then y, comma-joined behind the dot
    assert_eq!(sim(&MarkovToken::Start, &data, 10, 1000), "$[f.x=1,y ]");
}

#[test]
fn sim_returns_empty_on_an_empty_candidate_set() {
    let data = MarkovData { token_map: vec![], function_param_map: vec![] };
    assert_eq!(sim(&MarkovToken::Start, &data, 10, 1000), "");
    let w = MarkovToken::Word("w".to_string());
    let data = MarkovData {
        token_map: vec![(w.clone(), MarkovToken::End, 1)],
        function_param_map: vec![],
    };
    // no transition has context Start, so the top-level chain ends at once
    assert_eq!(sim(&MarkovToken::Start, &data, 10, 1000), "");
}
