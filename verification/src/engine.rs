//! The step engine: the request of a step, and what a response means for the
//! step and for the variables.
//!
//! Nothing here talks to a server or to a terminal: a request is a value, and
//! sending it is a function that the caller hands in.

pub use crate::branch::{choose_next, eval_skip_if, Next};
pub use crate::error::EngineError;
pub use crate::path::{dot_get, value_to_var};
pub use crate::template::{template, template_json};

use crate::branch::holds;
use crate::config::{
    opt_text, opt_yaml, text_entries, text_map, yaml_entries, yaml_to_var_string, yaml_var,
    EnvConfig, FlowConfig, StepConfig, StepConfigView,
};
use crate::error::{error_text, EngineErrorView};
use crate::flow::FlowStep;
use crate::json::{json_string, json_text, json_view, parse_json, JsonView};
use crate::path::{at_path, json_var};
use crate::strmap::{entries_map, StrMap};
use crate::template::{close_mark, filled, filled_json, law_lone_name_is_its_value, open_mark};
use crate::text::{
    chars_of, decimal, decimal_of, join, joined, law_digits_give_the_number_back,
    law_numbers_are_digits, law_strip_takes_the_end, law_texts_are_cut_at_the_first,
    law_trim_takes_white_space, number_upto, parse_upto, same_text, split_once, split_once_text,
    strip_end, strip_end_of, texts, trim, trimmed, Strip,
};
use crate::yaml::{yaml_json, yaml_to_json, yaml_view, YamlView};
use vstd::prelude::*;

verus! {

/// A status pattern: `2xx` is a class, anything else must be the number itself.
pub open spec fn status_fits(pattern: Seq<char>, status: u16) -> bool {
    let p = trimmed(pattern);
    let n = p.len() as int;
    if n >= 2 && p[n - 1] == 'x' && p[n - 2] == 'x' {
        number_upto(p.take(n - 2), u16::MAX as nat) == Some((status / 100) as nat)
    } else {
        number_upto(p, u16::MAX as nat) == Some(status as nat)
    }
}

/// Whether a status fits a pattern: `2xx` (a class) or `200` (the number).
pub fn status_matches(pattern: &str, status: u16) -> (r: bool)
    ensures
        r == status_fits(pattern@, status),
{
    let p = trim(pattern);
    let v = chars_of(p.as_str());
    let n: usize = v.len();
    if n >= 2 && v[n - 1] == 'x' && v[n - 2] == 'x' {
        assert(p@.subrange(0, n - 2) =~= p@.take(n - 2));
        match parse_upto(p.as_str().substring_char(0, n - 2), u16::MAX as usize) {
            Some(c) => c == (status / 100) as usize,
            None => false,
        }
    } else {
        match parse_upto(p.as_str(), u16::MAX as usize) {
            Some(c) => c == status as usize,
            None => false,
        }
    }
}

/// What the steps of a flow share.
#[derive(Debug)]
pub struct Ctx {
    /// Goes in front of every path; it does not end in `/`.
    pub base_url: String,
    /// Auth profile to bearer token.
    pub tokens: StrMap<String>,
    pub vars: StrMap<String>,
}

/// What a `Ctx` holds.
pub struct CtxView {
    pub base_url: Seq<char>,
    pub tokens: Map<Seq<char>, Seq<char>>,
    pub vars: Map<Seq<char>, Seq<char>>,
}

impl View for Ctx {
    type V = CtxView;

    open spec fn view(&self) -> CtxView {
        CtxView {
            base_url: self.base_url@,
            tokens: text_map(self.tokens),
            vars: text_map(self.vars),
        }
    }
}

/// A map of YAML values as a map of variables.
pub open spec fn yaml_vars(m: Map<Seq<char>, serde_yaml::Value>) -> Map<Seq<char>, Seq<char>> {
    m.map_values(|v: serde_yaml::Value| yaml_var(yaml_view(v)))
}

/// Pairs of strings as pairs of texts.
pub open spec fn pair_texts(v: Seq<(String, String)>) -> Seq<(Seq<char>, Seq<char>)> {
    Seq::new(v.len(), |i: int| (v[i].0@, v[i].1@))
}

/// The variables at the start of a run: those of the flow, overridden by those of
/// the environment, then by those of the command line in their order.
pub open spec fn seeded(
    flow: Map<Seq<char>, serde_yaml::Value>,
    env: Map<Seq<char>, serde_yaml::Value>,
    cli: Seq<(Seq<char>, Seq<char>)>,
) -> Map<Seq<char>, Seq<char>> {
    yaml_vars(flow).union_prefer_right(yaml_vars(env)).union_prefer_right(entries_map(cli))
}

fn overlay(vars: &mut StrMap<String>, with: &StrMap<serde_yaml::Value>)
    ensures
        text_map(*final(vars)) == text_map(*old(vars)).union_prefer_right(yaml_vars(with@)),
{
    let ghost base = text_map(*vars);
    let ghost e = with.entries();
    let mut i: usize = 0;
    assert(text_map(*vars) =~= base.union_prefer_right(yaml_vars(entries_map(e.take(0)))));
    while i < with.len()
        invariant
            e == with.entries(),
            i <= e.len(),
            text_map(*vars) == base.union_prefer_right(yaml_vars(entries_map(e.take(i as int)))),
        decreases e.len() - i,
    {
        let (k, v) = with.entry(i);
        let ghost before = text_map(*vars);
        let value = yaml_to_var_string(v);
        vars.insert(k.clone(), value);
        proof {
            assert(e.take(i + 1).drop_last() =~= e.take(i as int));
            assert(text_map(*vars) =~= before.insert(k@, value@));
            assert(yaml_vars(entries_map(e.take(i + 1))) =~= yaml_vars(
                entries_map(e.take(i as int)),
            ).insert(k@, value@));
            assert(text_map(*vars) =~= base.union_prefer_right(
                yaml_vars(entries_map(e.take(i + 1))),
            ));
        }
        i += 1;
    }
    assert(e.take(i as int) =~= e);
}

impl Ctx {
    /// The variables of the flow, overridden by those of the environment, then
    /// by those of the command line in their order.
    pub fn build(flow_cfg: &FlowConfig, env: EnvConfig, cli_vars: &[(String, String)]) -> (r: Self)
        ensures
            r@.base_url == strip_end(env.base_url@, Strip::Only('/')),
            r@.tokens == text_map(env.tokens),
            r@.vars == seeded(flow_cfg.vars@, env.vars@, pair_texts(cli_vars@)),
    {
        let mut vars: StrMap<String> = StrMap::new();
        assert(text_map(vars) =~= Map::empty());
        overlay(&mut vars, &flow_cfg.vars);
        overlay(&mut vars, &env.vars);
        let ghost base = text_map(vars);
        let ghost e = pair_texts(cli_vars@);
        assert(base =~= yaml_vars(flow_cfg.vars@).union_prefer_right(yaml_vars(env.vars@)));
        assert(base =~= base.union_prefer_right(entries_map(e.take(0))));
        let mut i: usize = 0;
        while i < cli_vars.len()
            invariant
                e == pair_texts(cli_vars@),
                i <= cli_vars.len(),
                text_map(vars) == base.union_prefer_right(entries_map(e.take(i as int))),
            decreases cli_vars.len() - i,
        {
            let p = &cli_vars[i];
            let ghost before = text_map(vars);
            vars.insert(p.0.clone(), p.1.clone());
            proof {
                assert(e.take(i + 1).drop_last() =~= e.take(i as int));
                assert(text_map(vars) =~= before.insert(p.0@, p.1@));
                assert(text_map(vars) =~= base.union_prefer_right(entries_map(e.take(i + 1))));
            }
            i += 1;
        }
        assert(e.take(i as int) =~= e);
        Ctx {
            base_url: strip_end_of(env.base_url.as_str(), Strip::Only('/')),
            tokens: env.tokens,
            vars,
        }
    }
}

/// How a step ended.
#[derive(Debug, Clone, PartialEq)]
pub enum Outcome {
    Passed,
    Failed(String),
    Skipped(String),
    /// A manual or external step, or a node without a configuration: nothing was
    /// sent.
    Manual,
}

/// What an `Outcome` holds.
pub enum OutcomeView {
    Passed,
    Failed(Seq<char>),
    Skipped(Seq<char>),
    Manual,
}

impl View for Outcome {
    type V = OutcomeView;

    open spec fn view(&self) -> OutcomeView {
        match *self {
            Outcome::Passed => OutcomeView::Passed,
            Outcome::Failed(s) => OutcomeView::Failed(s@),
            Outcome::Skipped(s) => OutcomeView::Skipped(s@),
            Outcome::Manual => OutcomeView::Manual,
        }
    }
}

/// What is known of a step after it ran.
#[derive(Debug)]
pub struct StepReport {
    pub outcome: Outcome,
    pub http_status: Option<u16>,
    pub ms: u128,
    /// The response.
    pub body: Option<serde_json::Value>,
    /// Notes on captures, for display.
    pub notes: Vec<String>,
    /// The request line, for display. The engine leaves this and the three
    /// fields below to whoever wants them shown.
    pub request_line: Option<String>,
    pub auth_info: Option<String>,
    pub request_body: Option<serde_json::Value>,
    pub curl: Option<String>,
}

/// What a `StepReport` holds.
pub struct StepReportView {
    pub outcome: OutcomeView,
    pub http_status: Option<u16>,
    pub ms: nat,
    pub body: Option<JsonView>,
    pub notes: Seq<Seq<char>>,
    pub request_line: Option<Seq<char>>,
    pub auth_info: Option<Seq<char>>,
    pub request_body: Option<JsonView>,
    pub curl: Option<Seq<char>>,
}

/// The tree of an optional document.
pub open spec fn opt_json(o: Option<serde_json::Value>) -> Option<JsonView> {
    match o {
        Some(v) => Some(json_view(v)),
        None => None,
    }
}

impl View for StepReport {
    type V = StepReportView;

    open spec fn view(&self) -> StepReportView {
        StepReportView {
            outcome: self.outcome@,
            http_status: self.http_status,
            ms: self.ms as nat,
            body: opt_json(self.body),
            notes: texts(self.notes@),
            request_line: opt_text(self.request_line),
            auth_info: opt_text(self.auth_info),
            request_body: opt_json(self.request_body),
            curl: opt_text(self.curl),
        }
    }
}

/// The report of a step for which nothing came back from a server.
pub open spec fn bare_report(outcome: OutcomeView) -> StepReportView {
    StepReportView {
        outcome,
        http_status: None,
        ms: 0,
        body: None,
        notes: seq![],
        request_line: None,
        auth_info: None,
        request_body: None,
        curl: None,
    }
}

impl StepReport {
    fn bare(outcome: Outcome) -> (r: Self)
        ensures
            r@ == bare_report(outcome@),
    {
        let r = StepReport {
            outcome,
            http_status: None,
            ms: 0,
            body: None,
            notes: Vec::new(),
            request_line: None,
            auth_info: None,
            request_body: None,
            curl: None,
        };
        assert(r@.notes =~= seq![]);
        r
    }

    /// The report of a step that was skipped.
    pub fn skipped(reason: String) -> (r: Self)
        ensures
            r@ == bare_report(OutcomeView::Skipped(reason@)),
    {
        StepReport::bare(Outcome::Skipped(reason))
    }

    /// The report of a manual step.
    pub fn manual() -> (r: Self)
        ensures
            r@ == bare_report(OutcomeView::Manual),
    {
        StepReport::bare(Outcome::Manual)
    }

    /// The report of a step that failed before a response came.
    pub fn failed(msg: String) -> (r: Self)
        ensures
            r@ == bare_report(OutcomeView::Failed(msg@)),
    {
        StepReport::bare(Outcome::Failed(msg))
    }
}

/// An HTTP request, ready to be sent.
#[derive(Debug)]
pub struct Request {
    pub method: String,
    pub url: String,
    /// The bearer token.
    pub bearer: Option<String>,
    /// Further headers, in the order in which they are added.
    pub headers: Vec<(String, String)>,
    /// The JSON body.
    pub body: Option<serde_json::Value>,
}

/// What a `Request` holds.
pub struct RequestView {
    pub method: Seq<char>,
    pub url: Seq<char>,
    pub bearer: Option<Seq<char>>,
    pub headers: Seq<(Seq<char>, Seq<char>)>,
    pub body: Option<JsonView>,
}

impl View for Request {
    type V = RequestView;

    open spec fn view(&self) -> RequestView {
        RequestView {
            method: self.method@,
            url: self.url@,
            bearer: opt_text(self.bearer),
            headers: pair_texts(self.headers@),
            body: opt_json(self.body),
        }
    }
}

/// What came back from a server.
#[derive(Debug)]
pub struct Reply {
    pub status: u16,
    /// How long the status took to come, in milliseconds.
    pub ms: u128,
    /// The body as text.
    pub text: String,
}

/// The characters of an HTTP token.
pub open spec fn is_token_char(c: char) -> bool {
    let n = c as int;
    ||| '0' as int <= n <= '9' as int
    ||| 'A' as int <= n <= 'Z' as int
    ||| 'a' as int <= n <= 'z' as int
    ||| c == '!' || c == '#' || c == '$' || c == '%' || c == '&' || c == '\'' || c == '*' || c == '+'
        || c == '-' || c == '.' || c == '^' || c == '_' || c == '`' || c == '|' || c == '~'
}

/// An HTTP method: a token of at least one character, in any case.
pub open spec fn is_method(s: Seq<char>) -> bool {
    s.len() > 0 && forall|i: int| 0 <= i < s.len() ==> is_token_char(#[trigger] s[i])
}

/// Parses a text with `reqwest::Method::from_str` and hands back the text of the
/// method, which is the text itself, or the displayed error. A method is a token
/// of at least one character.
#[verifier::external_body]
fn parse_method(s: &str) -> (r: Result<String, String>)
    ensures
        match r {
            Ok(m) => is_method(s@) && m@ == s@,
            Err(e) => !is_method(s@) && e@ == "invalid HTTP method"@,
        },
{
    s.parse::<reqwest::Method>().map(|m| m.as_str().to_owned()).map_err(|e| e.to_string())
}

/// Headers with their values filled; the error is that of the first value that
/// cannot be filled.
pub open spec fn filled_pairs(
    h: Seq<(Seq<char>, Seq<char>)>,
    vars: Map<Seq<char>, Seq<char>>,
) -> Result<Seq<(Seq<char>, Seq<char>)>, EngineErrorView>
    decreases h.len(),
{
    if h.len() == 0 {
        Ok(seq![])
    } else {
        match filled_pairs(h.drop_last(), vars) {
            Err(e) => Err(e),
            Ok(p) => match filled(h.last().1, vars) {
                Err(e) => Err(e),
                Ok(v) => Ok(p.push((h.last().0, v))),
            },
        }
    }
}

/// The method and the URL of a request line.
pub open spec fn target_of(
    request: Seq<char>,
    base_url: Seq<char>,
    vars: Map<Seq<char>, Seq<char>>,
) -> Result<(Seq<char>, Seq<char>), EngineErrorView> {
    match split_once(request, ' ') {
        None => Err(EngineErrorView::Request(request)),
        Some(p) => if !is_method(trimmed(p.0)) {
            Err(EngineErrorView::Method("invalid HTTP method"@))
        } else {
            match filled(trimmed(p.1), vars) {
                Err(e) => Err(e),
                Ok(path) => Ok((trimmed(p.0), base_url + path)),
            }
        },
    }
}

/// The token of an auth profile, where the step has one.
pub open spec fn bearer_of(
    auth: Option<Seq<char>>,
    tokens: Map<Seq<char>, Seq<char>>,
) -> Result<Option<Seq<char>>, EngineErrorView> {
    match auth {
        None => Ok(None),
        Some(p) => if tokens.contains_key(p) {
            Ok(Some(tokens[p]))
        } else {
            Err(EngineErrorView::Token(p))
        },
    }
}

/// The JSON body of a request, where the step has one.
pub open spec fn payload_of(
    body: Option<YamlView>,
    vars: Map<Seq<char>, Seq<char>>,
) -> Result<Option<JsonView>, EngineErrorView> {
    match body {
        None => Ok(None),
        Some(y) => match yaml_json(y) {
            Err(e) => Err(EngineErrorView::Body(e)),
            Ok(j) => match filled_json(j, vars) {
                Err(e) => Err(e),
                Ok(v) => Ok(Some(v)),
            },
        },
    }
}

/// The request of a step. Of several errors the first counts, in the order
/// request line, token, headers, body.
pub open spec fn request_of(cfg: StepConfigView, ctx: CtxView) -> Result<
    RequestView,
    EngineErrorView,
>
    recommends
        cfg.request is Some,
{
    match target_of(cfg.request->Some_0, ctx.base_url, ctx.vars) {
        Err(e) => Err(e),
        Ok(t) => match bearer_of(cfg.auth, ctx.tokens) {
            Err(e) => Err(e),
            Ok(bearer) => match filled_pairs(cfg.headers, ctx.vars) {
                Err(e) => Err(e),
                Ok(headers) => match payload_of(cfg.body, ctx.vars) {
                    Err(e) => Err(e),
                    Ok(body) => Ok(
                        RequestView { method: t.0, url: t.1, bearer, headers, body },
                    ),
                },
            },
        },
    }
}

fn target(request: &str, base_url: &str, vars: &StrMap<String>) -> (r: Result<
    (String, String),
    EngineError,
>)
    ensures
        match r {
            Ok(t) => target_of(request@, base_url@, text_map(*vars)) == Ok::<
                (Seq<char>, Seq<char>),
                EngineErrorView,
            >((t.0@, t.1@)),
            Err(e) => target_of(request@, base_url@, text_map(*vars)) == Err::<
                (Seq<char>, Seq<char>),
                EngineErrorView,
            >(e@),
        },
{
    match split_once_text(request, ' ') {
        None => Err(EngineError::Request(request.to_owned())),
        Some(p) => match parse_method(trim(p.0.as_str()).as_str()) {
            Err(e) => Err(EngineError::Method(e)),
            Ok(method) => match template(trim(p.1.as_str()).as_str(), vars) {
                Err(e) => Err(e),
                Ok(path) => Ok((method, base_url.to_owned().concat(path.as_str()))),
            },
        },
    }
}

proof fn lemma_filled_pairs_prefix(
    h: Seq<(Seq<char>, Seq<char>)>,
    vars: Map<Seq<char>, Seq<char>>,
    n: int,
)
    requires
        0 <= n <= h.len(),
    ensures
        filled_pairs(h.take(n), vars) matches Err(e) ==> filled_pairs(h, vars) == Err::<
            Seq<(Seq<char>, Seq<char>)>,
            EngineErrorView,
        >(e),
    decreases h.len(),
{
    if n < h.len() {
        lemma_filled_pairs_prefix(h.drop_last(), vars, n);
        assert(h.drop_last().take(n) =~= h.take(n));
    } else {
        assert(h.take(n) =~= h);
    }
}

fn template_headers(h: &StrMap<String>, vars: &StrMap<String>) -> (r: Result<
    Vec<(String, String)>,
    EngineError,
>)
    ensures
        match r {
            Ok(p) => filled_pairs(text_entries(*h), text_map(*vars)) == Ok::<
                Seq<(Seq<char>, Seq<char>)>,
                EngineErrorView,
            >(pair_texts(p@)),
            Err(e) => filled_pairs(text_entries(*h), text_map(*vars)) == Err::<
                Seq<(Seq<char>, Seq<char>)>,
                EngineErrorView,
            >(e@),
        },
{
    let ghost m = text_map(*vars);
    let ghost all = text_entries(*h);
    let mut out: Vec<(String, String)> = Vec::new();
    let mut i: usize = 0;
    assert(pair_texts(out@) =~= seq![]);
    while i < h.len()
        invariant
            m == text_map(*vars),
            all == text_entries(*h),
            i <= all.len(),
            filled_pairs(all.take(i as int), m) == Ok::<
                Seq<(Seq<char>, Seq<char>)>,
                EngineErrorView,
            >(pair_texts(out@)),
        decreases all.len() - i,
    {
        let (k, v) = h.entry(i);
        let ghost done = pair_texts(out@);
        proof {
            assert(all[i as int] == (k@, v@));
            assert(all.take(i + 1).drop_last() =~= all.take(i as int));
            lemma_filled_pairs_prefix(all, m, i + 1);
        }
        match template(v.as_str(), vars) {
            Ok(x) => {
                out.push((k.clone(), x));
                assert(pair_texts(out@) =~= done.push((k@, x@)));
            },
            Err(e) => {
                return Err(e);
            },
        }
        i += 1;
    }
    assert(all.take(i as int) =~= all);
    Ok(out)
}

fn payload(body: &Option<serde_yaml::Value>, vars: &StrMap<String>) -> (r: Result<
    Option<serde_json::Value>,
    EngineError,
>)
    ensures
        match r {
            Ok(j) => payload_of(opt_yaml(*body), text_map(*vars)) == Ok::<
                Option<JsonView>,
                EngineErrorView,
            >(opt_json(j)),
            Err(e) => payload_of(opt_yaml(*body), text_map(*vars)) == Err::<
                Option<JsonView>,
                EngineErrorView,
            >(e@),
        },
{
    match body {
        None => Ok(None),
        Some(y) => match yaml_to_json(y) {
            Err(e) => Err(EngineError::Body(e)),
            Ok(j) => match template_json(&j, vars) {
                Err(e) => Err(e),
                Ok(v) => Ok(Some(v)),
            },
        },
    }
}

/// Builds the request of a step that has a request line.
pub fn build_request(cfg: &StepConfig, ctx: &Ctx) -> (r: Result<Request, EngineError>)
    requires
        cfg@.request is Some,
    ensures
        match r {
            Ok(q) => request_of(cfg@, ctx@) == Ok::<RequestView, EngineErrorView>(q@),
            Err(e) => request_of(cfg@, ctx@) == Err::<RequestView, EngineErrorView>(e@),
        },
{
    let request = cfg.request.as_ref().unwrap();
    let (method, url) = match target(request.as_str(), ctx.base_url.as_str(), &ctx.vars) {
        Ok(t) => t,
        Err(e) => {
            return Err(e);
        },
    };
    let bearer = match &cfg.auth {
        None => None,
        Some(profile) => match ctx.tokens.get(profile.as_str()) {
            Some(t) => {
                assert(text_map(ctx.tokens)[profile@] == t@);
                Some(t.clone())
            },
            None => {
                assert(!text_map(ctx.tokens).contains_key(profile@));
                return Err(EngineError::Token(profile.clone()));
            },
        },
    };
    let headers = match template_headers(&cfg.headers, &ctx.vars) {
        Ok(h) => h,
        Err(e) => {
            return Err(e);
        },
    };
    match payload(&cfg.body, &ctx.vars) {
        Ok(body) => Ok(Request { method, url, bearer, headers, body }),
        Err(e) => Err(e),
    }
}

/// What a step comes to before anything is sent.
pub enum Prepared {
    /// Nothing is to be sent: this is the report.
    Done(StepReport),
    /// This is to be sent.
    Send(Request),
}

/// What a `Prepared` holds.
pub enum PreparedView {
    Done(StepReportView),
    Send(RequestView),
}

impl View for Prepared {
    type V = PreparedView;

    open spec fn view(&self) -> PreparedView {
        match *self {
            Prepared::Done(r) => PreparedView::Done(r@),
            Prepared::Send(q) => PreparedView::Send(q@),
        }
    }
}

/// What a step comes to before anything is sent: a manual step is done, a step
/// whose `skip_if` holds is skipped, and an error fails the step.
pub open spec fn prepared(cfg: StepConfigView, ctx: CtxView) -> PreparedView {
    if cfg.is_manual() {
        PreparedView::Done(bare_report(OutcomeView::Manual))
    } else if cfg.skip_if is Some && holds(cfg.skip_if->Some_0, ctx.vars) is None {
        PreparedView::Done(
            bare_report(
                OutcomeView::Failed(error_text(EngineErrorView::Condition(cfg.skip_if->Some_0))),
            ),
        )
    } else if cfg.skip_if is Some && holds(cfg.skip_if->Some_0, ctx.vars) == Some(true) {
        PreparedView::Done(
            bare_report(OutcomeView::Skipped("skip_if: "@ + cfg.skip_if->Some_0)),
        )
    } else {
        match request_of(cfg, ctx) {
            Ok(q) => PreparedView::Send(q),
            Err(e) => PreparedView::Done(bare_report(OutcomeView::Failed(error_text(e)))),
        }
    }
}

/// Everything of a step that comes before sending.
pub fn prepare_step(cfg: &StepConfig, ctx: &Ctx) -> (r: Prepared)
    ensures
        r@ == prepared(cfg@, ctx@),
{
    if cfg.is_manual() {
        return Prepared::Done(StepReport::manual());
    }
    match &cfg.skip_if {
        Some(expr) => match eval_skip_if(expr.as_str(), &ctx.vars) {
            Ok(b) => {
                if b {
                    let reason = "skip_if: ".to_owned().concat(expr.as_str());
                    return Prepared::Done(StepReport::skipped(reason));
                }
            },
            Err(e) => {
                return Prepared::Done(StepReport::failed(e.message()));
            },
        },
        None => {},
    }
    match build_request(cfg, ctx) {
        Ok(q) => Prepared::Send(q),
        Err(e) => Prepared::Done(StepReport::failed(e.message())),
    }
}

/// The document that a response is: its JSON, or its text where it is none.
pub open spec fn document(text: Seq<char>) -> JsonView {
    match json_text(text) {
        Some(v) => v,
        None => JsonView::Text(text),
    }
}

/// The variables after the captures of a step: each path that leads somewhere
/// sets its variable.
pub open spec fn captured(
    capture: Seq<(Seq<char>, Seq<char>)>,
    body: JsonView,
    vars: Map<Seq<char>, Seq<char>>,
) -> Map<Seq<char>, Seq<char>>
    decreases capture.len(),
{
    if capture.len() == 0 {
        vars
    } else {
        let before = captured(capture.drop_last(), body, vars);
        match at_path(body, capture.last().1) {
            Some(v) => before.insert(capture.last().0, json_var(v)),
            None => before,
        }
    }
}

/// What is noted of one capture.
pub open spec fn capture_note(c: (Seq<char>, Seq<char>), body: JsonView) -> Seq<char> {
    match at_path(body, c.1) {
        Some(v) => "capture "@ + c.0 + " = "@ + json_var(v),
        None => "capture "@ + c.0 + ": path `"@ + c.1 + "` tidak ada di response"@,
    }
}

/// What is noted of the captures of a step.
pub open spec fn capture_notes(capture: Seq<(Seq<char>, Seq<char>)>, body: JsonView) -> Seq<
    Seq<char>,
> {
    Seq::new(capture.len(), |i: int| capture_note(capture[i], body))
}

/// How a response falls short of one expectation, if it does.
pub open spec fn shortfall(
    key: Seq<char>,
    expected: Seq<char>,
    body: JsonView,
    status: u16,
) -> Option<Seq<char>> {
    if key == "status"@ {
        if status_fits(expected, status) {
            None
        } else {
            Some("status "@ + decimal(status as nat) + " ≠ "@ + expected)
        }
    } else {
        match at_path(body, key) {
            Some(v) => if json_var(v) == expected {
                None
            } else {
                Some(key + " = "@ + json_var(v) + " ≠ "@ + expected)
            },
            None => Some(key + ": tidak ada di response (harap "@ + expected + ")"@),
        }
    }
}

/// How a response falls short of the expectations of a step, in their order.
/// Expected values are templates; the error is that of the first one that cannot
/// be filled.
pub open spec fn shortfalls(
    asserts: Seq<(Seq<char>, YamlView)>,
    body: JsonView,
    status: u16,
    vars: Map<Seq<char>, Seq<char>>,
) -> Result<Seq<Seq<char>>, EngineErrorView>
    decreases asserts.len(),
{
    if asserts.len() == 0 {
        Ok(seq![])
    } else {
        match shortfalls(asserts.drop_last(), body, status, vars) {
            Err(e) => Err(e),
            Ok(f) => match filled(yaml_var(asserts.last().1), vars) {
                Err(e) => Err(e),
                Ok(expected) => match shortfall(asserts.last().0, expected, body, status) {
                    Some(t) => Ok(f.push(t)),
                    None => Ok(f),
                },
            },
        }
    }
}

/// A step says itself what status it expects.
pub open spec fn expects_status(asserts: Seq<(Seq<char>, YamlView)>) -> bool {
    exists|i: int| 0 <= i < asserts.len() && (#[trigger] asserts[i]).0 == "status"@
}

/// All that is wrong with a response: what falls short of the expectations, and,
/// where they say nothing of the status, a status that is not 2xx.
pub open spec fn faults(
    asserts: Seq<(Seq<char>, YamlView)>,
    body: JsonView,
    status: u16,
    vars: Map<Seq<char>, Seq<char>>,
) -> Result<Seq<Seq<char>>, EngineErrorView> {
    match shortfalls(asserts, body, status, vars) {
        Err(e) => Err(e),
        Ok(f) => if !expects_status(asserts) && !(200 <= status < 300) {
            Ok(f.push("HTTP "@ + decimal(status as nat) + " (bukan 2xx)"@))
        } else {
            Ok(f)
        },
    }
}

/// The verdict on a response.
pub open spec fn verdict(faults: Seq<Seq<char>>) -> OutcomeView {
    if faults.len() == 0 {
        OutcomeView::Passed
    } else {
        OutcomeView::Failed(joined(faults, "; "@))
    }
}

/// The report on a response. Captures come first, and the expectations are
/// filled with the variables after them.
pub open spec fn report_on(
    cfg: StepConfigView,
    vars: Map<Seq<char>, Seq<char>>,
    status: u16,
    ms: nat,
    text: Seq<char>,
) -> StepReportView {
    let body = document(text);
    match faults(cfg.asserts, body, status, captured(cfg.capture, body, vars)) {
        Err(e) => bare_report(OutcomeView::Failed(error_text(e))),
        Ok(f) => StepReportView {
            outcome: verdict(f),
            http_status: Some(status),
            ms,
            body: Some(body),
            notes: capture_notes(cfg.capture, body),
            request_line: None,
            auth_info: None,
            request_body: None,
            curl: None,
        },
    }
}

/// The report on what sending came to, and the variables after it.
pub open spec fn concluded(
    cfg: StepConfigView,
    vars: Map<Seq<char>, Seq<char>>,
    reply: Result<Reply, String>,
) -> (StepReportView, Map<Seq<char>, Seq<char>>) {
    match reply {
        Err(cause) => (
            bare_report(OutcomeView::Failed(error_text(EngineErrorView::Send(cause@)))),
            vars,
        ),
        Ok(r) => (
            report_on(cfg, vars, r.status, r.ms as nat, r.text@),
            captured(cfg.capture, document(r.text@), vars),
        ),
    }
}

fn take_captures(
    capture: &StrMap<String>,
    body: &serde_json::Value,
    vars: &mut StrMap<String>,
) -> (notes: Vec<String>)
    ensures
        text_map(*final(vars)) == captured(
            text_entries(*capture),
            json_view(*body),
            text_map(*old(vars)),
        ),
        texts(notes@) == capture_notes(text_entries(*capture), json_view(*body)),
{
    let ghost start = text_map(*vars);
    let ghost all = text_entries(*capture);
    let ghost doc = json_view(*body);
    let mut notes: Vec<String> = Vec::new();
    let mut i: usize = 0;
    while i < capture.len()
        invariant
            all == text_entries(*capture),
            doc == json_view(*body),
            i <= all.len(),
            text_map(*vars) == captured(all.take(i as int), doc, start),
            notes@.len() == i,
            forall|k: int|
                0 <= k < i ==> (#[trigger] notes@[k])@ == capture_note(all[k], doc),
        decreases all.len() - i,
    {
        let (var, path) = capture.entry(i);
        let ghost before = text_map(*vars);
        proof {
            assert(all[i as int] == (var@, path@));
            assert(all.take(i + 1).drop_last() =~= all.take(i as int));
        }
        match dot_get(body, path.as_str()) {
            Some(v) => {
                let s = value_to_var(v);
                notes.push(
                    "capture ".to_owned().concat(var.as_str()).concat(" = ").concat(s.as_str()),
                );
                vars.insert(var.clone(), s);
                assert(text_map(*vars) =~= before.insert(var@, s@));
            },
            None => {
                notes.push(
                    "capture ".to_owned().concat(var.as_str()).concat(": path `").concat(
                        path.as_str(),
                    ).concat("` tidak ada di response"),
                );
            },
        }
        i += 1;
    }
    assert(all.take(i as int) =~= all);
    assert(texts(notes@) =~= capture_notes(all, doc));
    notes
}

fn check_one(key: &str, expected: &str, body: &serde_json::Value, status: u16) -> (r: Option<
    String,
>)
    ensures
        opt_text(r) == shortfall(key@, expected@, json_view(*body), status),
{
    if same_text(key, "status") {
        if status_matches(expected, status) {
            None
        } else {
            Some(
                "status ".to_owned().concat(decimal_of(status as u128).as_str()).concat(
                    " ≠ ",
                ).concat(expected),
            )
        }
    } else {
        match dot_get(body, key) {
            Some(v) => {
                let actual = value_to_var(v);
                if same_text(actual.as_str(), expected) {
                    None
                } else {
                    Some(
                        key.to_owned().concat(" = ").concat(actual.as_str()).concat(" ≠ ").concat(
                            expected,
                        ),
                    )
                }
            },
            None => Some(
                key.to_owned().concat(": tidak ada di response (harap ").concat(expected).concat(
                    ")",
                ),
            ),
        }
    }
}

proof fn lemma_shortfalls_prefix(
    asserts: Seq<(Seq<char>, YamlView)>,
    body: JsonView,
    status: u16,
    vars: Map<Seq<char>, Seq<char>>,
    n: int,
)
    requires
        0 <= n <= asserts.len(),
    ensures
        shortfalls(asserts.take(n), body, status, vars) matches Err(e) ==> shortfalls(
            asserts,
            body,
            status,
            vars,
        ) == Err::<Seq<Seq<char>>, EngineErrorView>(e),
    decreases asserts.len(),
{
    if n < asserts.len() {
        lemma_shortfalls_prefix(asserts.drop_last(), body, status, vars, n);
        assert(asserts.drop_last().take(n) =~= asserts.take(n));
    } else {
        assert(asserts.take(n) =~= asserts);
    }
}

fn check_all(
    asserts: &StrMap<serde_yaml::Value>,
    body: &serde_json::Value,
    status: u16,
    vars: &StrMap<String>,
) -> (r: Result<Vec<String>, EngineError>)
    ensures
        match r {
            Ok(f) => faults(yaml_entries(*asserts), json_view(*body), status, text_map(*vars))
                == Ok::<Seq<Seq<char>>, EngineErrorView>(texts(f@)),
            Err(e) => faults(yaml_entries(*asserts), json_view(*body), status, text_map(*vars))
                == Err::<Seq<Seq<char>>, EngineErrorView>(e@),
        },
{
    let ghost m = text_map(*vars);
    let ghost all = yaml_entries(*asserts);
    let ghost doc = json_view(*body);
    let mut found: Vec<String> = Vec::new();
    let mut status_asserted = false;
    let mut i: usize = 0;
    assert(texts(found@) =~= seq![]);
    while i < asserts.len()
        invariant
            m == text_map(*vars),
            all == yaml_entries(*asserts),
            doc == json_view(*body),
            i <= all.len(),
            shortfalls(all.take(i as int), doc, status, m) == Ok::<
                Seq<Seq<char>>,
                EngineErrorView,
            >(texts(found@)),
            status_asserted == expects_status(all.take(i as int)),
        decreases all.len() - i,
    {
        let (key, value) = asserts.entry(i);
        let ghost before = texts(found@);
        proof {
            assert(all[i as int] == (key@, yaml_view(*value)));
            assert(all.take(i + 1).drop_last() =~= all.take(i as int));
            lemma_shortfalls_prefix(all, doc, status, m, i + 1);
        }
        let expected = match template(yaml_to_var_string(value).as_str(), vars) {
            Ok(x) => x,
            Err(e) => {
                return Err(e);
            },
        };
        if same_text(key.as_str(), "status") {
            status_asserted = true;
            assert(all.take(i + 1)[i as int].0 == "status"@);
        }
        proof {
            if expects_status(all.take(i as int)) {
                let k = choose|k: int|
                    0 <= k < i && (#[trigger] all.take(i as int)[k]).0 == "status"@;
                assert(all.take(i + 1)[k].0 == "status"@);
            }
            if expects_status(all.take(i + 1)) && key@ != "status"@ {
                let k = choose|k: int|
                    0 <= k < i + 1 && (#[trigger] all.take(i + 1)[k]).0 == "status"@;
                assert(all.take(i as int)[k].0 == "status"@);
            }
        }
        match check_one(key.as_str(), expected.as_str(), body, status) {
            Some(t) => {
                found.push(t);
                assert(texts(found@) =~= before.push(t@));
            },
            None => {},
        }
        i += 1;
    }
    assert(all.take(i as int) =~= all);
    if !status_asserted && !(200 <= status && status < 300) {
        let ghost before = texts(found@);
        let t = "HTTP ".to_owned().concat(decimal_of(status as u128).as_str()).concat(
            " (bukan 2xx)",
        );
        found.push(t);
        assert(texts(found@) =~= before.push(t@));
    }
    Ok(found)
}

/// Everything of a step that comes after sending: the captures, then the
/// expectations.
pub fn finish_step(cfg: &StepConfig, ctx: &mut Ctx, reply: Result<Reply, String>) -> (r: StepReport)
    ensures
        (r@, final(ctx)@.vars) == concluded(cfg@, old(ctx)@.vars, reply),
        final(ctx)@.base_url == old(ctx)@.base_url,
        final(ctx)@.tokens == old(ctx)@.tokens,
{
    let reply = match reply {
        Ok(x) => x,
        Err(cause) => {
            return StepReport::failed(EngineError::Send(cause).message());
        },
    };
    let body = match parse_json(reply.text.as_str()) {
        Some(v) => v,
        None => json_string(reply.text),
    };
    let notes = take_captures(&cfg.capture, &body, &mut ctx.vars);
    match check_all(&cfg.asserts, &body, reply.status, &ctx.vars) {
        Err(e) => StepReport::failed(e.message()),
        Ok(found) => {
            let outcome = if found.len() == 0 {
                Outcome::Passed
            } else {
                Outcome::Failed(join(&found, "; "))
            };
            StepReport {
                outcome,
                http_status: Some(reply.status),
                ms: reply.ms,
                body: Some(body),
                notes,
                request_line: None,
                auth_info: None,
                request_body: None,
                curl: None,
            }
        },
    }
}

/// What running a step comes to: the report where nothing is sent, and else the
/// conclusion from what `send` returned for the request. Only the variables
/// change.
pub open spec fn is_run<F: FnOnce(Request) -> Result<Reply, String>>(
    cfg: StepConfigView,
    before: CtxView,
    send: F,
    rep: StepReportView,
    after: CtxView,
) -> bool {
    &&& after.base_url == before.base_url
    &&& after.tokens == before.tokens
    &&& match prepared(cfg, before) {
        PreparedView::Done(done) => rep == done && after.vars == before.vars,
        PreparedView::Send(q) => exists|req: Request, reply: Result<Reply, String>|
            {
                &&& req@ == q
                &&& #[trigger] call_ensures(send, (req,), reply)
                &&& (rep, after.vars) == concluded(cfg, before.vars, reply)
            },
    }
}

/// Whether `send` takes what running a step hands to it: the request of the step
/// where one is to be sent, and nothing else. Of a step that is done without
/// sending it is true of every `send`, also of one that takes no request at all.
pub open spec fn takes_request<F: FnOnce(Request) -> Result<Reply, String>>(
    cfg: StepConfigView,
    ctx: CtxView,
    send: F,
) -> bool {
    forall|q: Request|
        prepared(cfg, ctx) == PreparedView::Send(q@) ==> #[trigger] call_requires(send, (q,))
}

/// Runs one step: prepares it, sends its request where it has one, and judges
/// the reply. `send` makes the request. It is called once where there is a request
/// to send, with that request, and else not at all.
pub fn run_step<F: FnOnce(Request) -> Result<Reply, String>>(
    step: &FlowStep,
    ctx: &mut Ctx,
    send: F,
) -> (r: StepReport)
    requires
        takes_request(step@.cfg, old(ctx)@, send),
    ensures
        is_run(step@.cfg, old(ctx)@, send, r@, final(ctx)@),
{
    match prepare_step(&step.cfg, ctx) {
        Prepared::Done(rep) => rep,
        Prepared::Send(req) => {
            let reply = send(req);
            finish_step(&step.cfg, ctx, reply)
        },
    }
}

/// The command line overrides the environment, and the environment overrides the
/// flow; nothing else is a variable at the start.
pub proof fn law_later_sources_override(
    flow: Map<Seq<char>, serde_yaml::Value>,
    env: Map<Seq<char>, serde_yaml::Value>,
    cli: Seq<(Seq<char>, Seq<char>)>,
    name: Seq<char>,
)
    ensures
        entries_map(cli).contains_key(name) ==> seeded(flow, env, cli).contains_pair(
            name,
            entries_map(cli)[name],
        ),
        !entries_map(cli).contains_key(name) && env.contains_key(name) ==> seeded(
            flow,
            env,
            cli,
        ).contains_pair(name, yaml_var(yaml_view(env[name]))),
        !entries_map(cli).contains_key(name) && !env.contains_key(name) && flow.contains_key(name)
            ==> seeded(flow, env, cli).contains_pair(name, yaml_var(yaml_view(flow[name]))),
        seeded(flow, env, cli).contains_key(name) ==> entries_map(cli).contains_key(name)
            || env.contains_key(name) || flow.contains_key(name),
{
}

/// A variable that a step does not capture keeps its value, whatever came back.
pub proof fn law_only_captures_change_variables(
    cfg: StepConfigView,
    vars: Map<Seq<char>, Seq<char>>,
    reply: Result<Reply, String>,
    name: Seq<char>,
)
    requires
        forall|i: int| 0 <= i < cfg.capture.len() ==> (#[trigger] cfg.capture[i]).0 != name,
    ensures
        concluded(cfg, vars, reply).1.contains_key(name) == vars.contains_key(name),
        concluded(cfg, vars, reply).1[name] == vars[name],
{
    match reply {
        Ok(r) => {
            lemma_not_captured(cfg.capture, document(r.text@), vars, name);
        },
        Err(_) => {},
    }
}

proof fn lemma_not_captured(
    capture: Seq<(Seq<char>, Seq<char>)>,
    body: JsonView,
    vars: Map<Seq<char>, Seq<char>>,
    name: Seq<char>,
)
    requires
        forall|i: int| 0 <= i < capture.len() ==> (#[trigger] capture[i]).0 != name,
    ensures
        captured(capture, body, vars).contains_key(name) == vars.contains_key(name),
        captured(capture, body, vars)[name] == vars[name],
    decreases capture.len(),
{
    if capture.len() > 0 {
        let front = capture.drop_last();
        assert forall|i: int| 0 <= i < front.len() implies (#[trigger] front[i]).0 != name by {
            assert(front[i] == capture[i]);
        }
        assert(capture[capture.len() - 1].0 != name);
        lemma_not_captured(front, body, vars, name);
    }
}

proof fn lemma_captured(
    capture: Seq<(Seq<char>, Seq<char>)>,
    body: JsonView,
    vars: Map<Seq<char>, Seq<char>>,
    i: int,
)
    requires
        0 <= i < capture.len(),
        forall|j: int| 0 <= j < capture.len() && j != i ==> (#[trigger] capture[j]).0
            != capture[i].0,
        at_path(body, capture[i].1) is Some,
    ensures
        captured(capture, body, vars).contains_pair(
            capture[i].0,
            json_var(at_path(body, capture[i].1)->Some_0),
        ),
    decreases capture.len(),
{
    let front = capture.drop_last();
    if i < capture.len() - 1 {
        assert(front[i] == capture[i]);
        assert forall|j: int| 0 <= j < front.len() && j != i implies (#[trigger] front[j]).0
            != front[i].0 by {
            assert(front[j] == capture[j]);
        }
        assert(capture[capture.len() - 1].0 != capture[i].0);
        lemma_captured(front, body, vars, i);
    }
}

/// What a step captures from a response is what `{{name}}` stands for in the
/// steps after it.
pub proof fn law_captures_feed_templates(
    cfg: StepConfigView,
    vars: Map<Seq<char>, Seq<char>>,
    reply: Reply,
    i: int,
)
    requires
        0 <= i < cfg.capture.len(),
        forall|j: int| 0 <= j < cfg.capture.len() && j != i ==> (#[trigger] cfg.capture[j]).0
            != cfg.capture[i].0,
        at_path(document(reply.text@), cfg.capture[i].1) is Some,
        !cfg.capture[i].0.contains('}'),
        trimmed(cfg.capture[i].0) == cfg.capture[i].0,
    ensures
        filled(
            open_mark() + cfg.capture[i].0 + close_mark(),
            concluded(cfg, vars, Ok(reply)).1,
        ) == Ok::<Seq<char>, EngineErrorView>(
            json_var(at_path(document(reply.text@), cfg.capture[i].1)->Some_0),
        ),
{
    lemma_captured(cfg.capture, document(reply.text@), vars, i);
    law_lone_name_is_its_value(cfg.capture[i].0, concluded(cfg, vars, Ok(reply)).1);
}

/// A step that says nothing of the status does not pass on a status that is not
/// 2xx.
pub proof fn law_default_requires_2xx(
    cfg: StepConfigView,
    vars: Map<Seq<char>, Seq<char>>,
    status: u16,
    ms: nat,
    text: Seq<char>,
)
    requires
        !expects_status(cfg.asserts),
        !(200 <= status < 300),
    ensures
        report_on(cfg, vars, status, ms, text).outcome is Failed,
{
}

proof fn lemma_no_shortfalls(
    asserts: Seq<(Seq<char>, YamlView)>,
    body: JsonView,
    status: u16,
    vars: Map<Seq<char>, Seq<char>>,
)
    ensures
        shortfalls(asserts, body, status, vars) == Ok::<Seq<Seq<char>>, EngineErrorView>(seq![])
            <==> forall|i: int|
            0 <= i < asserts.len() ==> is_met(#[trigger] asserts[i], body, status, vars),
    decreases asserts.len(),
{
    if asserts.len() > 0 {
        let front = asserts.drop_last();
        let n = asserts.len() - 1;
        lemma_no_shortfalls(front, body, status, vars);
        assert(asserts[n] == asserts.last());
        assert(Seq::<Seq<char>>::empty() =~= seq![]);
        if shortfalls(asserts, body, status, vars) == Ok::<Seq<Seq<char>>, EngineErrorView>(
            seq![],
        ) {
            assert(shortfalls(front, body, status, vars) is Ok);
            assert(shortfalls(front, body, status, vars)->Ok_0.len() == 0);
            assert(shortfalls(front, body, status, vars)->Ok_0 =~= seq![]);
            assert forall|i: int| 0 <= i < asserts.len() implies is_met(
                #[trigger] asserts[i],
                body,
                status,
                vars,
            ) by {
                if i < n {
                    assert(asserts[i] == front[i]);
                }
            }
        }
        if forall|i: int|
            0 <= i < asserts.len() ==> is_met(#[trigger] asserts[i], body, status, vars) {
            assert forall|i: int| 0 <= i < front.len() implies is_met(
                #[trigger] front[i],
                body,
                status,
                vars,
            ) by {
                assert(asserts[i] == front[i]);
            }
        }
    }
}

/// A response meets one expectation.
pub open spec fn is_met(
    a: (Seq<char>, YamlView),
    body: JsonView,
    status: u16,
    vars: Map<Seq<char>, Seq<char>>,
) -> bool {
    filled(yaml_var(a.1), vars) is Ok && shortfall(
        a.0,
        filled(yaml_var(a.1), vars)->Ok_0,
        body,
        status,
    ) is None
}

/// A step passes exactly when the response meets every expectation, and is 2xx
/// where no expectation speaks of the status.
pub proof fn law_passes_exactly_when_all_is_met(
    cfg: StepConfigView,
    vars: Map<Seq<char>, Seq<char>>,
    status: u16,
    ms: nat,
    text: Seq<char>,
)
    ensures
        report_on(cfg, vars, status, ms, text).outcome is Passed <==> {
            &&& forall|i: int|
                0 <= i < cfg.asserts.len() ==> is_met(
                    #[trigger] cfg.asserts[i],
                    document(text),
                    status,
                    captured(cfg.capture, document(text), vars),
                )
            &&& expects_status(cfg.asserts) || 200 <= status < 300
        },
{
    let body = document(text);
    let after = captured(cfg.capture, body, vars);
    lemma_no_shortfalls(cfg.asserts, body, status, after);
    match shortfalls(cfg.asserts, body, status, after) {
        Ok(f) => {
            assert(f.len() == 0 <==> f =~= seq![]);
        },
        Err(_) => {},
    }
}

/// A manual step, a step whose `skip_if` holds and a step that is broken before
/// sending send nothing: they are run with any `send`, also with one that may not
/// be called, their reports hold nothing of a response, and nothing changes.
pub proof fn law_manual_and_skipped_steps_send_nothing<
    F: FnOnce(Request) -> Result<Reply, String>,
>(cfg: StepConfigView, ctx: CtxView, send: F, rep: StepReportView, after: CtxView)
    requires
        ({
            ||| cfg.is_manual()
            ||| cfg.skip_if is Some && holds(cfg.skip_if->Some_0, ctx.vars) != Some(false)
            ||| request_of(cfg, ctx) is Err
        }),
    ensures
        takes_request(cfg, ctx, send),
        is_run(cfg, ctx, send, rep, after) ==> {
            &&& after == ctx
            &&& rep == bare_report(rep.outcome)
            &&& cfg.is_manual() ==> rep.outcome is Manual
            &&& !cfg.is_manual() ==> rep.outcome == if cfg.skip_if is Some && holds(
                cfg.skip_if->Some_0,
                ctx.vars,
            ) == Some(true) {
                OutcomeView::Skipped("skip_if: "@ + cfg.skip_if->Some_0)
            } else if cfg.skip_if is Some && holds(cfg.skip_if->Some_0, ctx.vars) is None {
                OutcomeView::Failed(error_text(EngineErrorView::Condition(cfg.skip_if->Some_0)))
            } else {
                OutcomeView::Failed(error_text(request_of(cfg, ctx)->Err_0))
            }
        },
{
}

/// A request goes to the base URL followed by a path, and carries the token of
/// the profile of its step.
pub proof fn law_requests_go_to_the_base_url(cfg: StepConfigView, ctx: CtxView)
    requires
        prepared(cfg, ctx) is Send,
    ensures
        ctx.base_url.is_prefix_of(prepared(cfg, ctx)->Send_0.url),
        match cfg.auth {
            Some(p) => ctx.tokens.contains_key(p) && prepared(cfg, ctx)->Send_0.bearer == Some(
                ctx.tokens[p],
            ),
            None => prepared(cfg, ctx)->Send_0.bearer is None,
        },
{
}

proof fn lemma_headers_fill(h: Seq<(Seq<char>, Seq<char>)>, vars: Map<Seq<char>, Seq<char>>)
    ensures
        match filled_pairs(h, vars) {
            Ok(p) => p.len() == h.len() && forall|i: int|
                0 <= i < h.len() ==> p[i].0 == (#[trigger] h[i]).0 && filled(h[i].1, vars) == Ok::<
                    Seq<char>,
                    EngineErrorView,
                >(p[i].1),
            Err(e) => exists|i: int|
                {
                    &&& 0 <= i < h.len()
                    &&& filled((#[trigger] h[i]).1, vars) == Err::<Seq<char>, EngineErrorView>(e)
                    &&& forall|j: int| 0 <= j < i ==> filled((#[trigger] h[j]).1, vars) is Ok
                },
        },
    decreases h.len(),
{
    if h.len() > 0 {
        let n = h.len() - 1;
        let front = h.drop_last();
        lemma_headers_fill(front, vars);
        assert(h[n] == h.last());
        assert forall|i: int| 0 <= i < n implies #[trigger] front[i] == h[i] by {}
        match filled_pairs(front, vars) {
            Err(e) => {
                let i = choose|i: int|
                    {
                        &&& 0 <= i < front.len()
                        &&& filled((#[trigger] front[i]).1, vars) == Err::<
                            Seq<char>,
                            EngineErrorView,
                        >(e)
                        &&& forall|j: int|
                            0 <= j < i ==> filled((#[trigger] front[j]).1, vars) is Ok
                    };
                assert(filled(h[i].1, vars) is Err);
                assert forall|j: int| 0 <= j < i implies filled(
                    (#[trigger] h[j]).1,
                    vars,
                ) is Ok by {
                    assert(front[j] == h[j]);
                }
            },
            Ok(p) => {
                assert forall|j: int| 0 <= j < n implies filled(
                    (#[trigger] h[j]).1,
                    vars,
                ) is Ok && p[j].0 == h[j].0 && filled(h[j].1, vars) == Ok::<
                    Seq<char>,
                    EngineErrorView,
                >(p[j].1) by {
                    assert(front[j] == h[j]);
                }
            },
        }
    }
}

/// A request is what its step says, whole. Its line is cut at the first blank. What
/// stands before it is the method, what stands after it is the path, both without
/// white space around them, and the URL is the base URL followed by all of the
/// filled path. The request carries the token of the auth profile, the headers in
/// their order with their values filled, and the body as JSON, filled, each where
/// the step has it.
pub proof fn law_requests_are_what_their_steps_say(
    cfg: StepConfigView,
    ctx: CtxView,
    m: Seq<char>,
    p: Seq<char>,
)
    requires
        cfg.request == Some(m + seq![' '] + p),
        !m.contains(' '),
    ensures
        match request_of(cfg, ctx) {
            Ok(q) => {
                &&& q.method == trimmed(m)
                &&& filled(trimmed(p), ctx.vars) is Ok
                &&& q.url == ctx.base_url + filled(trimmed(p), ctx.vars)->Ok_0
                &&& match cfg.auth {
                    None => q.bearer is None,
                    Some(a) => ctx.tokens.contains_key(a) && q.bearer == Some(ctx.tokens[a]),
                }
                &&& q.headers.len() == cfg.headers.len()
                &&& forall|i: int|
                    0 <= i < cfg.headers.len() ==> q.headers[i].0 == (#[trigger] cfg.headers[i]).0
                        && filled(cfg.headers[i].1, ctx.vars) == Ok::<Seq<char>, EngineErrorView>(
                        q.headers[i].1,
                    )
                &&& match cfg.body {
                    None => q.body is None,
                    Some(y) => q.body is Some && yaml_json(y) is Ok && filled_json(
                        yaml_json(y)->Ok_0,
                        ctx.vars,
                    ) == Ok::<JsonView, EngineErrorView>(q.body->Some_0),
                }
            },
            Err(e) => {
                ||| !is_method(trimmed(m)) && e == EngineErrorView::Method("invalid HTTP method"@)
                ||| filled(trimmed(p), ctx.vars) == Err::<Seq<char>, EngineErrorView>(e)
                ||| cfg.auth is Some && !ctx.tokens.contains_key(cfg.auth->Some_0) && e
                    == EngineErrorView::Token(cfg.auth->Some_0)
                ||| exists|i: int|
                    0 <= i < cfg.headers.len() && filled(
                        (#[trigger] cfg.headers[i]).1,
                        ctx.vars,
                    ) == Err::<Seq<char>, EngineErrorView>(e)
                ||| cfg.body is Some && yaml_json(cfg.body->Some_0) is Err && e
                    == EngineErrorView::Body(yaml_json(cfg.body->Some_0)->Err_0)
                ||| cfg.body is Some && yaml_json(cfg.body->Some_0) is Ok && filled_json(
                    yaml_json(cfg.body->Some_0)->Ok_0,
                    ctx.vars,
                ) == Err::<JsonView, EngineErrorView>(e)
            },
        },
{
    law_texts_are_cut_at_the_first(m, ' ', p);
    lemma_headers_fill(cfg.headers, ctx.vars);
}

/// Of several faults of a request the first counts, in the order line, method, path,
/// token, headers, body; and a request without a fault is built.
pub proof fn law_first_fault_of_a_request_counts(
    cfg: StepConfigView,
    ctx: CtxView,
    m: Seq<char>,
    p: Seq<char>,
)
    requires
        !m.contains(' '),
    ensures
        cfg.request == Some(m) ==> request_of(cfg, ctx) == Err::<RequestView, EngineErrorView>(
            EngineErrorView::Request(m),
        ),
        cfg.request == Some(m + seq![' '] + p) ==> {
            let r = request_of(cfg, ctx);
            let path = filled(trimmed(p), ctx.vars);
            let token = cfg.auth is Some ==> ctx.tokens.contains_key(cfg.auth->Some_0);
            let headers = forall|i: int|
                0 <= i < cfg.headers.len() ==> filled(
                    (#[trigger] cfg.headers[i]).1,
                    ctx.vars,
                ) is Ok;
            let body = cfg.body is Some ==> yaml_json(cfg.body->Some_0) is Ok && filled_json(
                yaml_json(cfg.body->Some_0)->Ok_0,
                ctx.vars,
            ) is Ok;
            &&& !is_method(trimmed(m)) ==> r == Err::<RequestView, EngineErrorView>(
                EngineErrorView::Method("invalid HTTP method"@),
            )
            &&& is_method(trimmed(m)) && path is Err ==> r == Err::<RequestView, EngineErrorView>(
                path->Err_0,
            )
            &&& is_method(trimmed(m)) && path is Ok && !token ==> r == Err::<
                RequestView,
                EngineErrorView,
            >(EngineErrorView::Token(cfg.auth->Some_0))
            &&& is_method(trimmed(m)) && path is Ok && token && !headers ==> exists|i: int|
                {
                    &&& 0 <= i < cfg.headers.len()
                    &&& filled((#[trigger] cfg.headers[i]).1, ctx.vars) is Err
                    &&& r == Err::<RequestView, EngineErrorView>(
                        filled(cfg.headers[i].1, ctx.vars)->Err_0,
                    )
                    &&& forall|j: int|
                        0 <= j < i ==> filled((#[trigger] cfg.headers[j]).1, ctx.vars) is Ok
                }
            &&& is_method(trimmed(m)) && path is Ok && token && headers ==> r is Ok == body
        },
{
    law_texts_are_cut_at_the_first(m, ' ', p);
    lemma_headers_fill(cfg.headers, ctx.vars);
    let headers = forall|i: int|
        0 <= i < cfg.headers.len() ==> filled((#[trigger] cfg.headers[i]).1, ctx.vars) is Ok;
    if !headers {
        assert(filled_pairs(cfg.headers, ctx.vars) is Err);
    } else {
        assert(filled_pairs(cfg.headers, ctx.vars) is Ok);
    }
}

/// A request is sent exactly when the step is not manual, has a request line,
/// nothing says to skip it, and the request has no fault; and what is sent is that
/// request.
pub proof fn law_sends_exactly_what_is_to_be_sent(cfg: StepConfigView, ctx: CtxView)
    ensures
        prepared(cfg, ctx) is Send <==> {
            &&& !cfg.manual
            &&& cfg.request is Some
            &&& cfg.skip_if is None || holds(cfg.skip_if->Some_0, ctx.vars) == Some(false)
            &&& request_of(cfg, ctx) is Ok
        },
        prepared(cfg, ctx) is Send ==> request_of(cfg, ctx) == Ok::<RequestView, EngineErrorView>(
            prepared(cfg, ctx)->Send_0,
        ),
        (cfg.manual || cfg.request is None) ==> prepared(cfg, ctx) is Done && prepared(
            cfg,
            ctx,
        )->Done_0.outcome is Manual,
        !cfg.manual && cfg.request is Some && cfg.skip_if is Some && holds(
            cfg.skip_if->Some_0,
            ctx.vars,
        ) == Some(true) ==> prepared(cfg, ctx) is Done && prepared(cfg, ctx)->Done_0.outcome
            == OutcomeView::Skipped("skip_if: "@ + cfg.skip_if->Some_0),
        prepared(cfg, ctx) is Done ==> {
            let r = prepared(cfg, ctx)->Done_0;
            &&& r.http_status is None && r.ms == 0 && r.body is None && r.notes.len() == 0
            &&& r.request_line is None && r.auth_info is None && r.request_body is None
            &&& r.curl is None
            &&& !(r.outcome is Passed)
        },
{
}

proof fn lemma_captures_before(
    capture: Seq<(Seq<char>, Seq<char>)>,
    body: JsonView,
    vars: Map<Seq<char>, Seq<char>>,
    i: int,
)
    requires
        0 <= i < capture.len(),
        forall|j: int| 0 <= j < capture.len() && j != i ==> (#[trigger] capture[j]).0
            != capture[i].0,
        at_path(body, capture[i].1) is None,
    ensures
        captured(capture, body, vars).contains_key(capture[i].0) == vars.contains_key(
            capture[i].0,
        ),
        captured(capture, body, vars)[capture[i].0] == vars[capture[i].0],
    decreases capture.len(),
{
    let front = capture.drop_last();
    if i < capture.len() - 1 {
        assert(front[i] == capture[i]);
        assert forall|j: int| 0 <= j < front.len() && j != i implies (#[trigger] front[j]).0
            != front[i].0 by {
            assert(front[j] == capture[j]);
        }
        assert(capture[capture.len() - 1].0 != capture[i].0);
        lemma_captures_before(front, body, vars, i);
    } else {
        assert forall|j: int| 0 <= j < front.len() implies (#[trigger] front[j]).0
            != capture[i].0 by {
            assert(front[j] == capture[j]);
        }
        lemma_not_captured(front, body, vars, capture[i].0);
    }
}

/// A capture takes what its path leads to in the response, which is the JSON of the
/// text that came or that text itself: a text is taken without its quotes, and
/// anything else as compact JSON. Where the path leads nowhere the variable stays
/// as it was. What was done is noted, for each capture and in their order.
pub proof fn law_captures_take_what_the_path_leads_to(
    cfg: StepConfigView,
    vars: Map<Seq<char>, Seq<char>>,
    reply: Reply,
    i: int,
)
    requires
        0 <= i < cfg.capture.len(),
        forall|j: int| 0 <= j < cfg.capture.len() && j != i ==> (#[trigger] cfg.capture[j]).0
            != cfg.capture[i].0,
    ensures
        ({
            let body = match json_text(reply.text@) {
                Some(v) => v,
                None => JsonView::Text(reply.text@),
            };
            let name = cfg.capture[i].0;
            let path = cfg.capture[i].1;
            let r = concluded(cfg, vars, Ok(reply));
            match at_path(body, path) {
                Some(v) => {
                    let taken = if v is Text {
                        v->Text_0
                    } else {
                        crate::json::json_display(v)
                    };
                    &&& r.1.contains_key(name) && r.1[name] == taken
                    &&& r.0.http_status is Some ==> r.0.notes.len() == cfg.capture.len()
                        && r.0.notes[i] == "capture "@ + name + " = "@ + taken
                },
                None => {
                    &&& r.1.contains_key(name) == vars.contains_key(name)
                    &&& r.1[name] == vars[name]
                    &&& r.0.http_status is Some ==> r.0.notes.len() == cfg.capture.len()
                        && r.0.notes[i] == "capture "@ + name + ": path `"@ + path
                        + "` tidak ada di response"@
                },
            }
        }),
{
    let body = document(reply.text@);
    if at_path(body, cfg.capture[i].1) is Some {
        lemma_captured(cfg.capture, body, vars, i);
    } else {
        lemma_captures_before(cfg.capture, body, vars, i);
    }
}

/// A response is judged by what it holds. A step passes exactly when every
/// expectation can be filled, with the variables after the captures, and is met,
/// and the status is 2xx where no expectation speaks of it. An expectation under
/// `status` is met by a status that fits the filled text; any other is met exactly
/// when its key is a path that leads to something in the response whose text is the
/// filled text, neither more nor less.
pub proof fn law_responses_are_judged_by_what_they_hold(
    cfg: StepConfigView,
    vars: Map<Seq<char>, Seq<char>>,
    reply: Reply,
)
    ensures
        ({
            let body = match json_text(reply.text@) {
                Some(v) => v,
                None => JsonView::Text(reply.text@),
            };
            let r = concluded(cfg, vars, Ok(reply));
            r.0.outcome is Passed <==> {
                &&& forall|i: int|
                    0 <= i < cfg.asserts.len() ==> {
                        let want = filled(yaml_var((#[trigger] cfg.asserts[i]).1), r.1);
                        let got = at_path(body, cfg.asserts[i].0);
                        &&& want is Ok
                        &&& cfg.asserts[i].0 == "status"@ ==> status_fits(
                            want->Ok_0,
                            reply.status,
                        )
                        &&& cfg.asserts[i].0 != "status"@ ==> got is Some && want->Ok_0
                            == if got->Some_0 is Text {
                            got->Some_0->Text_0
                        } else {
                            crate::json::json_display(got->Some_0)
                        }
                    }
                &&& 200 <= reply.status <= 299 || exists|i: int|
                    0 <= i < cfg.asserts.len() && (#[trigger] cfg.asserts[i]).0 == "status"@
            }
        }),
{
    let body = document(reply.text@);
    let after = captured(cfg.capture, body, vars);
    law_passes_exactly_when_all_is_met(cfg, vars, reply.status, reply.ms as nat, reply.text@);
    assert forall|i: int| 0 <= i < cfg.asserts.len() implies is_met(
        #[trigger] cfg.asserts[i],
        body,
        reply.status,
        after,
    ) == ({
        let want = filled(yaml_var(cfg.asserts[i].1), after);
        let got = at_path(body, cfg.asserts[i].0);
        &&& want is Ok
        &&& cfg.asserts[i].0 == "status"@ ==> status_fits(want->Ok_0, reply.status)
        &&& cfg.asserts[i].0 != "status"@ ==> got is Some && want->Ok_0
            == if got->Some_0 is Text {
            got->Some_0->Text_0
        } else {
            crate::json::json_display(got->Some_0)
        }
    }) by {}
}

/// A status pattern is a number, which the status must be, or a number and `xx`,
/// which must be the hundreds of the status; white space around it does not count,
/// and nothing else fits any status.
pub proof fn law_status_patterns(n: nat, p: Seq<char>, status: u16)
    ensures
        n <= u16::MAX ==> (status_fits(decimal(n), status) <==> status == n),
        n <= u16::MAX ==> (status_fits(decimal(n) + seq!['x', 'x'], status) <==> status / 100
            == n),
        status_fits(p, status) == status_fits(trimmed(p), status),
        status_fits(p, status) ==> trimmed(p).len() > 0 && '0' as int <= trimmed(
            p,
        )[trimmed(p).len() - 1] as int <= '9' as int || (trimmed(p).len() > 2 && trimmed(
            p,
        )[trimmed(p).len() - 1] == 'x' && trimmed(p)[trimmed(p).len() - 2] == 'x' && '0' as int
            <= trimmed(p)[trimmed(p).len() - 3] as int <= '9' as int),
{
    let none = Seq::<char>::empty();
    let d = decimal(n);
    let k = d.len() as int;
    law_digits_give_the_number_back(n, u16::MAX as nat);
    assert('0' as int <= d[0] as int <= '9' as int);
    assert('0' as int <= d[k - 1] as int <= '9' as int);
    law_trim_takes_white_space(none, d, none);
    let x = d + seq!['x', 'x'];
    law_trim_takes_white_space(none, x, none);
    assert(x.take(k) =~= d);
    assert(x.len() == k + 2);
    lemma_trimmed_twice(p);
    let t = trimmed(p);
    if status_fits(p, status) {
        let m = t.len() as int;
        if m >= 2 && t[m - 1] == 'x' && t[m - 2] == 'x' {
            let h = t.take(m - 2);
            law_numbers_are_digits(h, u16::MAX as nat);
            assert(h.last() == t[m - 3]);
            assert(h[h.len() - 1] == h.last());
        } else {
            law_numbers_are_digits(t, u16::MAX as nat);
            assert(t[m - 1] == t.last());
        }
    }
}

proof fn lemma_trimmed_twice(p: Seq<char>)
    ensures
        trimmed(trimmed(p)) == trimmed(p),
{
    let none = Seq::<char>::empty();
    let t = trimmed(p);
    crate::text::lemma_trimmed_ends(p);
    law_trim_takes_white_space(none, t, none);
}

proof fn lemma_shortfalls_concat(
    a: Seq<(Seq<char>, YamlView)>,
    b: Seq<(Seq<char>, YamlView)>,
    body: JsonView,
    status: u16,
    vars: Map<Seq<char>, Seq<char>>,
)
    ensures
        shortfalls(a + b, body, status, vars) == match shortfalls(a, body, status, vars) {
            Err(e) => Err::<Seq<Seq<char>>, EngineErrorView>(e),
            Ok(f) => match shortfalls(b, body, status, vars) {
                Err(e) => Err(e),
                Ok(g) => Ok(f + g),
            },
        },
    decreases b.len(),
{
    if b.len() == 0 {
        assert(a + b =~= a);
        match shortfalls(a, body, status, vars) {
            Ok(f) => {
                assert(f + Seq::<Seq<char>>::empty() =~= f);
            },
            Err(_) => {},
        }
    } else {
        assert((a + b).last() == b.last());
        assert((a + b).drop_last() =~= a + b.drop_last());
        lemma_shortfalls_concat(a, b.drop_last(), body, status, vars);
        if shortfalls(a, body, status, vars) is Ok && shortfalls(
            b.drop_last(),
            body,
            status,
            vars,
        ) is Ok {
            let f = shortfalls(a, body, status, vars)->Ok_0;
            let g = shortfalls(b.drop_last(), body, status, vars)->Ok_0;
            assert forall|t: Seq<char>| #[trigger] (f + g).push(t) == f + g.push(t) by {
                assert((f + g).push(t) =~= f + g.push(t));
            }
        }
    }
}

/// A report on a response says what is wrong, and nothing else: for each unmet
/// expectation, in their order, what was found and what was expected, and at the
/// end a status that is not 2xx where no expectation speaks of it. Of the first
/// expectation that cannot be filled it says only that.
pub proof fn law_failures_say_what_is_wrong(
    a: Seq<(Seq<char>, YamlView)>,
    e: (Seq<char>, YamlView),
    b: Seq<(Seq<char>, YamlView)>,
    body: JsonView,
    status: u16,
    vars: Map<Seq<char>, Seq<char>>,
)
    ensures
        shortfalls(seq![], body, status, vars) == Ok::<Seq<Seq<char>>, EngineErrorView>(seq![]),
        shortfalls(a + seq![e] + b, body, status, vars) == match shortfalls(
            a,
            body,
            status,
            vars,
        ) {
            Err(x) => Err::<Seq<Seq<char>>, EngineErrorView>(x),
            Ok(f) => match filled(yaml_var(e.1), vars) {
                Err(x) => Err(x),
                Ok(want) => match shortfalls(b, body, status, vars) {
                    Err(x) => Err(x),
                    Ok(g) => Ok(
                        f + (if e.0 == "status"@ {
                            if status_fits(want, status) {
                                Seq::<Seq<char>>::empty()
                            } else {
                                seq!["status "@ + decimal(status as nat) + " ≠ "@ + want]
                            }
                        } else {
                            match at_path(body, e.0) {
                                None => seq![
                                    e.0 + ": tidak ada di response (harap "@ + want + ")"@,
                                ],
                                Some(v) => {
                                    let got = if v is Text {
                                        v->Text_0
                                    } else {
                                        crate::json::json_display(v)
                                    };
                                    if got == want {
                                        seq![]
                                    } else {
                                        seq![e.0 + " = "@ + got + " ≠ "@ + want]
                                    }
                                },
                            }
                        }) + g,
                    ),
                },
            },
        },
{
    lemma_shortfalls_concat(a + seq![e], b, body, status, vars);
    lemma_shortfalls_concat(a, seq![e], body, status, vars);
    reveal_with_fuel(shortfalls, 2);
    assert(seq![e].drop_last() =~= Seq::<(Seq<char>, YamlView)>::empty());
    assert(seq![e].last() == e);
    let none = Seq::<Seq<char>>::empty();
    assert forall|t: Seq<char>| #[trigger] none.push(t) == seq![t] by {
        assert(none.push(t) =~= seq![t]);
    }
    match shortfalls(a, body, status, vars) {
        Ok(f) => {
            assert(f + none =~= f);
        },
        Err(_) => {},
    }
}

/// A response gives a report with its status, its time and its document, and an
/// outcome that joins what is wrong with `; `. Where an expectation cannot be
/// filled, or nothing came back, the report says only why, and where nothing came
/// back no variable changes.
pub proof fn law_reports_hold_the_response(
    cfg: StepConfigView,
    vars: Map<Seq<char>, Seq<char>>,
    reply: Result<Reply, String>,
)
    ensures
        match reply {
            Err(cause) => {
                let r = concluded(cfg, vars, reply);
                &&& r.1 == vars
                &&& r.0.outcome == OutcomeView::Failed("kirim request: "@ + cause@)
                &&& r.0.http_status is None && r.0.body is None && r.0.notes.len() == 0
                &&& r.0.ms == 0
            },
            Ok(x) => {
                let r = concluded(cfg, vars, reply);
                let body = match json_text(x.text@) {
                    Some(v) => v,
                    None => JsonView::Text(x.text@),
                };
                match shortfalls(cfg.asserts, body, x.status, r.1) {
                    Err(e) => {
                        &&& r.0.outcome == OutcomeView::Failed(error_text(e))
                        &&& r.0.http_status is None && r.0.body is None && r.0.notes.len() == 0
                        &&& r.0.ms == 0
                    },
                    Ok(f) => {
                        let all = if 200 <= x.status <= 299 || exists|i: int|
                            0 <= i < cfg.asserts.len() && (#[trigger] cfg.asserts[i]).0
                                == "status"@ {
                            f
                        } else {
                            f + seq!["HTTP "@ + decimal(x.status as nat) + " (bukan 2xx)"@]
                        };
                        &&& r.0.http_status == Some(x.status)
                        &&& r.0.ms == x.ms
                        &&& r.0.body == Some(body)
                        &&& r.0.outcome == if all.len() == 0 {
                            OutcomeView::Passed
                        } else {
                            OutcomeView::Failed(joined(all, "; "@))
                        }
                    },
                }
            },
        },
{
    match reply {
        Ok(x) => {
            let body = document(x.text@);
            let after = captured(cfg.capture, body, vars);
            let t = "HTTP "@ + decimal(x.status as nat) + " (bukan 2xx)"@;
            match shortfalls(cfg.asserts, body, x.status, after) {
                Ok(f) => {
                    assert(f.push(t) =~= f + seq![t]);
                },
                Err(_) => {},
            }
        },
        Err(_) => {},
    }
}

/// The host of a flow is the base URL of the environment without the slashes at its
/// end, however many there are.
pub proof fn law_base_urls_end_in_no_slash(host: Seq<char>, slashes: Seq<char>)
    requires
        host.len() > 0 ==> host.last() != '/',
        forall|i: int| 0 <= i < slashes.len() ==> #[trigger] slashes[i] == '/',
    ensures
        strip_end(host + slashes, Strip::Only('/')) == host,
{
    law_strip_takes_the_end(host, slashes, Strip::Only('/'));
}

} // verus!
