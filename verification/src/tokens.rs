//! Token alphabet of the chain model and the persisted model data.

use vstd::prelude::*;

verus! {

/// Mathematical model of a [`MarkovToken`]: the same alphabet over `Seq<char>`.
pub enum ChainTok {
    Start,
    Word(Seq<char>),
    FunctionCall(Seq<char>),
    FunctionBody(Seq<char>),
    End,
}

/// A state of the token-transition chain.
///
/// `FunctionBody(name)` is never an emitted token: it only keys the sub-chain
/// entered right after a call of `name`. `Start` is never emitted either, and
/// `End` is terminal for the sub-chain it closes.
#[derive(Debug)]
pub enum MarkovToken {
    Start,
    Word(String),
    FunctionCall(String),
    FunctionBody(String),
    End,
}

impl View for MarkovToken {
    type V = ChainTok;

    open spec fn view(&self) -> ChainTok {
        match self {
            MarkovToken::Start => ChainTok::Start,
            MarkovToken::Word(s) => ChainTok::Word(s@),
            MarkovToken::FunctionCall(s) => ChainTok::FunctionCall(s@),
            MarkovToken::FunctionBody(s) => ChainTok::FunctionBody(s@),
            MarkovToken::End => ChainTok::End,
        }
    }
}

impl MarkovToken {
    /// Copies the token; the copy has the same model.
    pub fn dup(&self) -> (r: Self)
        ensures
            r@ == self@,
    {
        match self {
            MarkovToken::Start => MarkovToken::Start,
            MarkovToken::Word(s) => MarkovToken::Word(s.clone()),
            MarkovToken::FunctionCall(s) => MarkovToken::FunctionCall(s.clone()),
            MarkovToken::FunctionBody(s) => MarkovToken::FunctionBody(s.clone()),
            MarkovToken::End => MarkovToken::End,
        }
    }
}

impl Clone for MarkovToken {
    /// The copy has the same model.
    fn clone(&self) -> (r: Self)
        ensures
            r@ == self@,
    {
        self.dup()
    }
}

impl PartialEq for MarkovToken {
    fn eq(&self, other: &Self) -> (r: bool) {
        match (self, other) {
            (MarkovToken::Start, MarkovToken::Start) => true,
            (MarkovToken::Word(a), MarkovToken::Word(b)) => *a == *b,
            (MarkovToken::FunctionCall(a), MarkovToken::FunctionCall(b)) => *a == *b,
            (MarkovToken::FunctionBody(a), MarkovToken::FunctionBody(b)) => *a == *b,
            (MarkovToken::End, MarkovToken::End) => true,
            _ => false,
        }
    }
}

impl vstd::std_specs::cmp::PartialEqSpecImpl for MarkovToken {
    open spec fn obeys_eq_spec() -> bool {
        true
    }

    open spec fn eq_spec(&self, other: &Self) -> bool {
        self@ == other@
    }
}

/// Mathematical model of a [`FunctionParamValue`].
pub enum ParamValueTok {
    Absent,
    PresentNoValue,
    PresentWithValue(Seq<char>),
}

/// How one parameter of one function invocation was observed.
#[derive(Debug)]
pub enum FunctionParamValue {
    Absent,
    PresentNoValue,
    PresentWithValue(String),
}

impl View for FunctionParamValue {
    type V = ParamValueTok;

    open spec fn view(&self) -> ParamValueTok {
        match self {
            FunctionParamValue::Absent => ParamValueTok::Absent,
            FunctionParamValue::PresentNoValue => ParamValueTok::PresentNoValue,
            FunctionParamValue::PresentWithValue(s) => ParamValueTok::PresentWithValue(s@),
        }
    }
}

impl FunctionParamValue {
    /// Copies the value state; the copy has the same model.
    pub fn dup(&self) -> (r: Self)
        ensures
            r@ == self@,
    {
        match self {
            FunctionParamValue::Absent => FunctionParamValue::Absent,
            FunctionParamValue::PresentNoValue => FunctionParamValue::PresentNoValue,
            FunctionParamValue::PresentWithValue(s) => {
                FunctionParamValue::PresentWithValue(s.clone())
            },
        }
    }
}

impl Clone for FunctionParamValue {
    /// The copy has the same model.
    fn clone(&self) -> (r: Self)
        ensures
            r@ == self@,
    {
        self.dup()
    }
}

impl PartialEq for FunctionParamValue {
    fn eq(&self, other: &Self) -> (r: bool) {
        match (self, other) {
            (FunctionParamValue::Absent, FunctionParamValue::Absent) => true,
            (FunctionParamValue::PresentNoValue, FunctionParamValue::PresentNoValue) => true,
            (
                FunctionParamValue::PresentWithValue(a),
                FunctionParamValue::PresentWithValue(b),
            ) => *a == *b,
            _ => false,
        }
    }
}

impl vstd::std_specs::cmp::PartialEqSpecImpl for FunctionParamValue {
    open spec fn obeys_eq_spec() -> bool {
        true
    }

    open spec fn eq_spec(&self, other: &Self) -> bool {
        self@ == other@
    }
}

/// The learned model: transition counts and parameter counts, kept as flat
/// ordered lists of tuples.
#[derive(Debug)]
pub struct MarkovData {
    /// Occurrence count per (context, emitted) pair.
    pub token_map: Vec<(MarkovToken, MarkovToken, usize)>,
    /// Occurrence count per (function name, parameter key, value state).
    pub function_param_map: Vec<(String, String, FunctionParamValue, usize)>,
}

} // verus!
