//! What can go wrong with a step before a verdict on it.

use crate::text::{join, joined, texts};
use vstd::prelude::*;

verus! {

/// Why a step could not be run to a verdict.
#[derive(Debug)]
pub enum EngineError {
    /// A template names variables that have no value.
    MissingVars(Vec<String>),
    /// A condition that is neither `==` nor `!=`.
    Condition(String),
    /// A request line that is not `METHOD /path`.
    Request(String),
    /// The method of a request line is no HTTP method, with the cause.
    Method(String),
    /// The auth profile has no token.
    Token(String),
    /// The body has no JSON form, with the cause.
    Body(String),
    /// The request could not be sent, with the cause.
    Send(String),
}

/// What an `EngineError` holds.
pub enum EngineErrorView {
    MissingVars(Seq<Seq<char>>),
    Condition(Seq<char>),
    Request(Seq<char>),
    Method(Seq<char>),
    Token(Seq<char>),
    Body(Seq<char>),
    Send(Seq<char>),
}

impl View for EngineError {
    type V = EngineErrorView;

    open spec fn view(&self) -> EngineErrorView {
        match *self {
            EngineError::MissingVars(v) => EngineErrorView::MissingVars(texts(v@)),
            EngineError::Condition(s) => EngineErrorView::Condition(s@),
            EngineError::Request(s) => EngineErrorView::Request(s@),
            EngineError::Method(s) => EngineErrorView::Method(s@),
            EngineError::Token(s) => EngineErrorView::Token(s@),
            EngineError::Body(s) => EngineErrorView::Body(s@),
            EngineError::Send(s) => EngineErrorView::Send(s@),
        }
    }
}

/// What an error says.
pub open spec fn error_text(e: EngineErrorView) -> Seq<char> {
    match e {
        EngineErrorView::MissingVars(names) => "var belum terisi: "@ + joined(names, ", "@),
        EngineErrorView::Condition(x) => "skip_if hanya mendukung `==` / `!=`: "@ + x,
        EngineErrorView::Request(x) => "request harus `METHOD /path`: "@ + x,
        EngineErrorView::Method(x) => "HTTP method tidak dikenal: "@ + x,
        EngineErrorView::Token(x) => "token profil auth '"@ + x + "' tidak ada di env file"@,
        EngineErrorView::Body(x) => "body YAML → JSON: "@ + x,
        EngineErrorView::Send(x) => "kirim request: "@ + x,
    }
}

impl EngineError {
    /// What the error says.
    pub fn message(&self) -> (r: String)
        ensures
            r@ == error_text(self@),
    {
        match self {
            EngineError::MissingVars(v) => "var belum terisi: ".to_owned().concat(
                join(v, ", ").as_str(),
            ),
            EngineError::Condition(x) => "skip_if hanya mendukung `==` / `!=`: ".to_owned().concat(
                x.as_str(),
            ),
            EngineError::Request(x) => "request harus `METHOD /path`: ".to_owned().concat(
                x.as_str(),
            ),
            EngineError::Method(x) => "HTTP method tidak dikenal: ".to_owned().concat(x.as_str()),
            EngineError::Token(x) => "token profil auth '".to_owned().concat(x.as_str()).concat(
                "' tidak ada di env file",
            ),
            EngineError::Body(x) => "body YAML → JSON: ".to_owned().concat(x.as_str()),
            EngineError::Send(x) => "kirim request: ".to_owned().concat(x.as_str()),
        }
    }
}

/// An error says what is wrong and names it: all the variables without a value, the
/// condition, the request line, the method, the profile, or the cause.
pub proof fn law_errors_name_what_is_wrong(names: Seq<Seq<char>>, x: Seq<char>)
    ensures
        error_text(EngineErrorView::MissingVars(names)) == "var belum terisi: "@ + joined(
            names,
            ", "@,
        ),
        error_text(EngineErrorView::Condition(x)) == "skip_if hanya mendukung `==` / `!=`: "@ + x,
        error_text(EngineErrorView::Request(x)) == "request harus `METHOD /path`: "@ + x,
        error_text(EngineErrorView::Method(x)) == "HTTP method tidak dikenal: "@ + x,
        error_text(EngineErrorView::Token(x)) == "token profil auth '"@ + x
            + "' tidak ada di env file"@,
        error_text(EngineErrorView::Body(x)) == "body YAML → JSON: "@ + x,
        error_text(EngineErrorView::Send(x)) == "kirim request: "@ + x,
{
}

} // verus!
