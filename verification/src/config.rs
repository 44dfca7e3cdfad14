//! The definition files: the runner's side of a flow (one entry per node) and
//! the environment of a deployment (host, tokens, seed variables).

use crate::strmap::StrMap;
use crate::text::{
    is_space, law_trim_takes_white_space, lemma_trimmed_to_nothing, trim, trimmed,
};
use crate::yaml::{yaml_display, yaml_ref, yaml_to_string, yaml_view, YamlRef, YamlView};
use vstd::prelude::*;

verus! {

/// The text of an optional string.
pub open spec fn opt_text(o: Option<String>) -> Option<Seq<char>> {
    match o {
        Some(s) => Some(s@),
        None => None,
    }
}

/// The tree of an optional YAML value.
pub open spec fn opt_yaml(o: Option<serde_yaml::Value>) -> Option<YamlView> {
    match o {
        Some(y) => Some(yaml_view(y)),
        None => None,
    }
}

/// The entries of a map of strings, as texts.
pub open spec fn text_entries(m: StrMap<String>) -> Seq<(Seq<char>, Seq<char>)> {
    Seq::new(m.entries().len(), |i: int| (m.entries()[i].0, m.entries()[i].1@))
}

/// A map of strings as a map of texts.
pub open spec fn text_map(m: StrMap<String>) -> Map<Seq<char>, Seq<char>> {
    m@.map_values(|s: String| s@)
}

/// The entries of a map of YAML values, as trees.
pub open spec fn yaml_entries(m: StrMap<serde_yaml::Value>) -> Seq<(Seq<char>, YamlView)> {
    Seq::new(m.entries().len(), |i: int| (m.entries()[i].0, yaml_view(m.entries()[i].1)))
}

/// The runner's side of one flow. The keys of `steps` are node ids.
#[derive(Debug)]
pub struct FlowConfig {
    /// The auth profiles that the flow uses; their tokens are in the
    /// environment.
    pub auth_profiles: Vec<String>,
    /// Default variables, which the environment and the command line override.
    pub vars: StrMap<serde_yaml::Value>,
    pub steps: StrMap<StepConfig>,
}

/// How one node is run. A node without an entry is a manual step.
#[derive(Debug)]
pub struct StepConfig {
    /// The auth profile whose token the request carries.
    pub auth: Option<String>,
    /// `"METHOD /path"`; the path goes behind the base URL and may hold `{{var}}`.
    pub request: Option<String>,
    pub headers: StrMap<String>,
    /// The request body; its texts may hold `{{var}}`.
    pub body: Option<serde_yaml::Value>,
    /// `var: dot.path`: what the response puts into the variables.
    pub capture: StrMap<String>,
    /// `status: 2xx|200` and `dot.path: value`: what the response must be.
    pub asserts: StrMap<serde_yaml::Value>,
    /// `var == value` or `var != value`.
    pub skip_if: Option<String>,
    /// A step outside the runner, which is only waited for.
    pub manual: bool,
    /// A note for the operator.
    pub note: Option<String>,
}

/// The environment of a deployment.
#[derive(Debug)]
pub struct EnvConfig {
    pub base_url: String,
    /// Auth profile to bearer token.
    pub tokens: StrMap<String>,
    pub vars: StrMap<serde_yaml::Value>,
}

/// What a `StepConfig` holds.
pub struct StepConfigView {
    pub auth: Option<Seq<char>>,
    pub request: Option<Seq<char>>,
    pub headers: Seq<(Seq<char>, Seq<char>)>,
    pub body: Option<YamlView>,
    pub capture: Seq<(Seq<char>, Seq<char>)>,
    pub asserts: Seq<(Seq<char>, YamlView)>,
    pub skip_if: Option<Seq<char>>,
    pub manual: bool,
    pub note: Option<Seq<char>>,
}

impl View for StepConfig {
    type V = StepConfigView;

    open spec fn view(&self) -> StepConfigView {
        StepConfigView {
            auth: opt_text(self.auth),
            request: opt_text(self.request),
            headers: text_entries(self.headers),
            body: opt_yaml(self.body),
            capture: text_entries(self.capture),
            asserts: yaml_entries(self.asserts),
            skip_if: opt_text(self.skip_if),
            manual: self.manual,
            note: opt_text(self.note),
        }
    }
}

impl StepConfigView {
    /// The step is not sent by the runner.
    pub open spec fn is_manual(self) -> bool {
        self.manual || self.request is None
    }
}

/// The configuration of a node that has none: a manual step with nothing else.
pub open spec fn blank_step(manual: bool) -> StepConfigView {
    StepConfigView {
        auth: None,
        request: None,
        headers: seq![],
        body: None,
        capture: seq![],
        asserts: seq![],
        skip_if: None,
        manual,
        note: None,
    }
}

impl Default for StepConfig {
    fn default() -> (r: Self)
        ensures
            r@ == blank_step(false),
    {
        let r = StepConfig {
            auth: None,
            request: None,
            headers: StrMap::new(),
            body: None,
            capture: StrMap::new(),
            asserts: StrMap::new(),
            skip_if: None,
            manual: false,
            note: None,
        };
        assert(r@.headers =~= seq![] && r@.capture =~= seq![] && r@.asserts =~= seq![]);
        r
    }
}

impl Clone for StepConfig {
    fn clone(&self) -> (r: Self)
        ensures
            r@ == self@,
    {
        let r = StepConfig {
            auth: self.auth.clone(),
            request: self.request.clone(),
            headers: self.headers.clone(),
            body: match &self.body {
                Some(y) => Some(y.clone()),
                None => None,
            },
            capture: self.capture.clone(),
            asserts: self.asserts.clone(),
            skip_if: self.skip_if.clone(),
            manual: self.manual,
            note: self.note.clone(),
        };
        proof {
            assert(r@.headers =~= self@.headers);
            assert(r@.capture =~= self@.capture);
            assert(r@.asserts =~= self@.asserts);
        }
        r
    }
}

impl StepConfig {
    /// Whether the runner does not send the step.
    pub fn is_manual(&self) -> (r: bool)
        ensures
            r == self@.is_manual(),
    {
        self.manual || self.request.is_none()
    }
}

impl Default for FlowConfig {
    fn default() -> (r: Self)
        ensures
            r.auth_profiles@ == Seq::<String>::empty(),
            r.vars.entries() == Seq::<(Seq<char>, serde_yaml::Value)>::empty(),
            r.steps.entries() == Seq::<(Seq<char>, StepConfig)>::empty(),
    {
        FlowConfig { auth_profiles: Vec::new(), vars: StrMap::new(), steps: StrMap::new() }
    }
}

impl Default for EnvConfig {
    fn default() -> (r: Self)
        ensures
            r.base_url@ == Seq::<char>::empty(),
            r.tokens.entries() == Seq::<(Seq<char>, String)>::empty(),
            r.vars.entries() == Seq::<(Seq<char>, serde_yaml::Value)>::empty(),
    {
        EnvConfig { base_url: String::new(), tokens: StrMap::new(), vars: StrMap::new() }
    }
}

/// The text that a YAML value is as a variable: a text, a number or a boolean
/// is what it is written as, the null value is empty, and anything else is its
/// YAML text without surrounding white space.
pub open spec fn yaml_var(v: YamlView) -> Seq<char> {
    match v {
        YamlView::Text(s) => s,
        YamlView::Number(n) => n,
        YamlView::Bool(b) => if b {
            "true"@
        } else {
            "false"@
        },
        YamlView::Null => seq![],
        _ => match yaml_display(v) {
            Some(s) => trimmed(s),
            None => seq![],
        },
    }
}

/// A YAML value as the text of a variable.
pub fn yaml_to_var_string(v: &serde_yaml::Value) -> (r: String)
    ensures
        r@ == yaml_var(yaml_view(*v)),
{
    match yaml_ref(v) {
        YamlRef::Text(s) => s.clone(),
        YamlRef::Number(n) => n,
        YamlRef::Bool(b) => if b {
            "true".to_owned()
        } else {
            "false".to_owned()
        },
        YamlRef::Null => String::new(),
        YamlRef::Other => match yaml_to_string(v) {
            Some(s) => trim(s.as_str()),
            None => String::new(),
        },
    }
}

/// What is wrong with the token of an auth profile.
#[derive(Debug)]
pub enum TokenError {
    /// The environment has no token for the profile.
    Missing(String),
    /// The token of the profile is blank.
    Blank(String),
}

impl TokenError {
    /// What the error says, for the environment at a path.
    pub fn message(&self, path: &str) -> (r: String)
        ensures
            r@ == match *self {
                TokenError::Missing(p) => "token for profile '"@ + p@
                    + "' not found in env file "@ + path@,
                TokenError::Blank(p) => "token for profile '"@ + p@ + "' is EMPTY in env file "@
                    + path@,
            },
    {
        match self {
            TokenError::Missing(p) => "token for profile '".to_owned().concat(p.as_str()).concat(
                "' not found in env file ",
            ).concat(path),
            TokenError::Blank(p) => "token for profile '".to_owned().concat(p.as_str()).concat(
                "' is EMPTY in env file ",
            ).concat(path),
        }
    }

    /// What the error says where the token can be typed in.
    pub fn prompt(&self) -> (r: String)
        ensures
            r@ == "token for profile '"@ + match *self {
                TokenError::Missing(p) => p@,
                TokenError::Blank(p) => p@,
            } + "' is empty — set it in the connection panel"@,
    {
        let p = match self {
            TokenError::Missing(p) => p,
            TokenError::Blank(p) => p,
        };
        "token for profile '".to_owned().concat(p.as_str()).concat(
            "' is empty — set it in the connection panel",
        )
    }
}

/// The token of a profile is there and not blank.
pub open spec fn token_usable(tokens: Map<Seq<char>, Seq<char>>, profile: Seq<char>) -> bool {
    tokens.contains_key(profile) && trimmed(tokens[profile]).len() > 0
}

/// Checks the tokens of the profiles that a flow declares, so that no request
/// goes out with an empty token. The error names the first profile whose token
/// cannot be used.
pub fn check_tokens(profiles: &Vec<String>, tokens: &StrMap<String>) -> (r: Result<(), TokenError>)
    ensures
        r is Ok <==> forall|i: int|
            0 <= i < profiles@.len() ==> token_usable(text_map(*tokens), #[trigger] profiles@[i]@),
        r matches Err(TokenError::Missing(p)) ==> exists|i: int|
            {
                &&& 0 <= i < profiles@.len()
                &&& profiles@[i]@ == p@
                &&& !text_map(*tokens).contains_key(p@)
                &&& forall|j: int|
                    0 <= j < i ==> token_usable(text_map(*tokens), #[trigger] profiles@[j]@)
            },
        r matches Err(TokenError::Blank(p)) ==> exists|i: int|
            {
                &&& 0 <= i < profiles@.len()
                &&& profiles@[i]@ == p@
                &&& text_map(*tokens).contains_key(p@)
                &&& trimmed(text_map(*tokens)[p@]).len() == 0
                &&& forall|j: int|
                    0 <= j < i ==> token_usable(text_map(*tokens), #[trigger] profiles@[j]@)
            },
{
    let ghost m = text_map(*tokens);
    let mut i: usize = 0;
    while i < profiles.len()
        invariant
            i <= profiles.len(),
            m == text_map(*tokens),
            forall|j: int| 0 <= j < i ==> token_usable(m, #[trigger] profiles@[j]@),
        decreases profiles.len() - i,
    {
        let p = &profiles[i];
        match tokens.get(p.as_str()) {
            None => {
                assert(!token_usable(m, profiles@[i as int]@));
                return Err(TokenError::Missing(p.clone()));
            },
            Some(t) => {
                assert(m[p@] == t@);
                if trim(t.as_str()).as_str().is_empty() {
                    assert(!token_usable(m, profiles@[i as int]@));
                    return Err(TokenError::Blank(p.clone()));
                }
            },
        }
        i += 1;
    }
    Ok(())
}

/// A value of a YAML file stands for a text: a text for itself, a number for what
/// it is written as, `true` and `false` for these words, null for nothing, and a list
/// or a mapping for its YAML text without white space around it.
pub proof fn law_yaml_values_as_texts(s: Seq<char>, b: bool, v: YamlView)
    ensures
        yaml_var(YamlView::Text(s)) == s,
        yaml_var(YamlView::Number(s)) == s,
        yaml_var(YamlView::Bool(b)) == if b {
            "true"@
        } else {
            "false"@
        },
        yaml_var(YamlView::Null).len() == 0,
        (v is Sequence || v is Mapping || v is Tagged) && yaml_display(v) is Some ==> yaml_var(v)
            == trimmed(yaml_display(v)->Some_0),
{
}

/// A token can be used exactly when the environment has one for the profile that is
/// more than white space.
pub proof fn law_blank_tokens_cannot_be_used(
    tokens: Map<Seq<char>, Seq<char>>,
    profile: Seq<char>,
)
    ensures
        token_usable(tokens, profile) <==> tokens.contains_key(profile) && exists|i: int|
            0 <= i < tokens[profile].len() && !is_space(#[trigger] tokens[profile][i]),
{
    let t = tokens[profile];
    let none = Seq::<char>::empty();
    if exists|i: int| 0 <= i < t.len() && !is_space(#[trigger] t[i]) {
        if trimmed(t).len() == 0 {
            lemma_trimmed_to_nothing(t);
        }
    } else {
        assert forall|i: int| 0 <= i < t.len() implies is_space(#[trigger] t[i]) by {}
        assert(t + none + none =~= t);
        law_trim_takes_white_space(t, none, none);
    }
}

/// The entries of a map are all of them, in the order of their keys, each with its
/// own value; and so are the values of a map.
pub proof fn law_entries_are_all_of_a_map(
    m: StrMap<String>,
    y: StrMap<serde_yaml::Value>,
    k: Seq<char>,
)
    ensures
        text_entries(m).len() == m.entries().len(),
        forall|i: int|
            0 <= i < m.entries().len() ==> (#[trigger] text_entries(m)[i]).0 == m.entries()[i].0
                && text_entries(m)[i].1 == m.entries()[i].1@,
        yaml_entries(y).len() == y.entries().len(),
        forall|i: int|
            0 <= i < y.entries().len() ==> (#[trigger] yaml_entries(y)[i]).0 == y.entries()[i].0
                && yaml_entries(y)[i].1 == yaml_view(y.entries()[i].1),
        text_map(m).contains_key(k) <==> m@.contains_key(k),
        m@.contains_key(k) ==> text_map(m)[k] == m@[k]@,
{
}

} // verus!
