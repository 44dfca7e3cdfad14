use flowrun::chart::{Chart, ChartEdge, ChartNode};
use flowrun::config::{
    check_tokens, yaml_to_var_string, FlowConfig, StepConfig, TokenError,
};
use flowrun::flow::{assemble, load, FlowError};
use flowrun::strmap::StrMap;

#[test]
fn linear_order_and_sidecar_merge() {
    let src = "flowchart LR\n  a[Langkah A]:::cust --> b[Langkah B]:::ownr\n  b --> c[Langkah C]\n  classDef cust fill:#3b82f6\n  classDef ownr fill:#f59e0b\n";
    let mut cfg = FlowConfig::default();
    cfg.steps.insert(
        "b".into(),
        StepConfig { request: Some("GET /x".into()), ..Default::default() },
    );
    let flow = load(src.to_string(), cfg).unwrap();
    let ids: Vec<&str> = flow.steps.iter().map(|s| s.node_id.as_str()).collect();
    assert_eq!(ids, vec!["a", "b", "c"]);
    assert!(flow.linear);
    assert_eq!(flow.start, 0);
    assert!(flow.steps[0].unconfigured && flow.steps[0].cfg.manual);
    assert_eq!(flow.steps[1].cfg.request.as_deref(), Some("GET /x"));
    assert_eq!(flow.steps[1].title, "Langkah B");
    assert_eq!(flow.mermaid_src, src);
}

#[test]
fn branching_loads_with_conditions() {
    let src = "flowchart TD\n  a --> b\n  b -->|mode == x| c\n  b -->|else| d\n  c --> e\n  d --> e\n";
    let flow = load(src.to_string(), FlowConfig::default()).unwrap();
    assert!(!flow.linear);
    let b = flow.steps.iter().position(|s| s.node_id == "b").unwrap();
    let outs = flow.outgoing(b);
    assert_eq!(outs.len(), 2);
    let conds: Vec<Option<&str>> = outs.iter().map(|e| e.cond.as_deref()).collect();
    assert!(conds.contains(&Some("mode == x")));
    assert!(conds.contains(&None)); // else → fallback
    // Every edge leads to a later step.
    assert!(flow.edges.iter().all(|e| e.from < e.to && e.to < flow.steps.len()));
}

#[test]
fn rejects_cycle() {
    let src = "flowchart LR\n  a --> b\n  b --> c\n  c --> b\n";
    let err = load(src.to_string(), FlowConfig::default()).unwrap_err().message("flow.mmd");
    assert!(err.contains("cyclic"), "{err}");
    assert_eq!(
        err,
        "cyclic graph detected (node: b, c) — only DAGs are supported"
    );
}

#[test]
fn rejects_unknown_sidecar_step() {
    let src = "flowchart LR\n  a --> b\n";
    let mut cfg = FlowConfig::default();
    cfg.steps.insert("zzz".into(), StepConfig::default());
    let err = load(src.to_string(), cfg).unwrap_err().message("flow.mmd");
    assert!(err.contains("zzz"), "{err}");
}

#[test]
fn every_flow_error_has_its_source() {
    let fails = |src: &str| load(src.to_string(), FlowConfig::default()).unwrap_err();
    assert!(matches!(fails("flowchart LR\n  a -->\n  -->"), FlowError::Unparsable(_)));
    assert!(fails("flowchart LR\n  a -->\n  -->").message("p").starts_with("parse mermaid p: "));
    let other = fails("pie\n  \"a\" : 1\n");
    assert!(matches!(other, FlowError::NotAFlow(_)));
    assert!(other.message("p").starts_with("diagram must be flowchart/stateDiagram, got "));
    let empty = fails("flowchart LR\n");
    assert!(matches!(empty, FlowError::Empty));
    assert_eq!(empty.message("p"), "empty flow: no nodes in p");
    let none = fails("flowchart LR\n  a --> b\n  b --> a\n");
    assert!(matches!(none, FlowError::NoStart));
    assert_eq!(
        none.message("p"),
        "cyclic graph: no start node (all have an incoming edge)"
    );
    let many = fails("flowchart LR\n  a --> c\n  b --> c\n");
    assert_eq!(
        many.message("p"),
        "more than one start node (a, b) — a flow needs a single entry point"
    );
}

fn chart(ids: &[&str], arcs: &[(usize, usize, Option<&str>)]) -> Chart {
    Chart {
        nodes: ids
            .iter()
            .map(|i| ChartNode { id: i.to_string(), label: format!("L{i}") })
            .collect(),
        edges: arcs
            .iter()
            .map(|(f, t, l)| ChartEdge { from: *f, to: *t, label: l.map(str::to_string) })
            .collect(),
    }
}

#[test]
fn steps_come_when_they_are_ready() {
    // d is declared first but waits for b and c.
    let c = chart(
        &["d", "a", "b", "c"],
        &[(2, 0, Some("x != y")), (3, 0, Some(" ELSE ")), (1, 2, Some("")), (1, 3, None)],
    );
    let flow = assemble("src".into(), c, FlowConfig::default()).unwrap();
    let ids: Vec<&str> = flow.steps.iter().map(|s| s.node_id.as_str()).collect();
    assert_eq!(ids, vec!["a", "b", "c", "d"]);
    let edges: Vec<(usize, usize, Option<&str>, Option<&str>)> = flow
        .edges
        .iter()
        .map(|e| (e.from, e.to, e.cond.as_deref(), e.label.as_deref()))
        .collect();
    assert_eq!(
        edges,
        vec![
            (1, 3, Some("x != y"), Some("x != y")),
            (2, 3, None, Some(" ELSE ")),
            (0, 1, None, Some("")),
            (0, 2, None, None),
        ]
    );
    assert!(!flow.linear);
    assert_eq!(flow.start, 0);
}

#[test]
fn a_configured_step_is_never_dropped() {
    let mut cfg = FlowConfig::default();
    for id in ["a", "b"] {
        cfg.steps.insert(
            id.into(),
            StepConfig { note: Some(format!("n-{id}")), ..Default::default() },
        );
    }
    let flow = assemble("src".into(), chart(&["a", "b"], &[(0, 1, None)]), cfg).unwrap();
    for s in &flow.steps {
        assert_eq!(s.cfg.note.as_deref(), Some(format!("n-{}", s.node_id).as_str()));
        assert!(!s.unconfigured);
    }
}

#[test]
fn a_loop_on_one_node_is_a_cycle() {
    let c = chart(&["a", "b"], &[(0, 1, None), (1, 1, None)]);
    let err = assemble("s".into(), c, FlowConfig::default()).unwrap_err();
    assert!(matches!(err, FlowError::Cyclic(ids) if ids == vec!["b"]));
}

#[test]
fn yaml_values_as_variables() {
    let y = |s: &str| yaml_to_var_string(&serde_yaml::from_str::<serde_yaml::Value>(s).unwrap());
    assert_eq!(y("text"), "text");
    assert_eq!(y("3"), "3");
    assert_eq!(y("-2.5"), "-2.5");
    assert_eq!(y("true"), "true");
    assert_eq!(y("false"), "false");
    assert_eq!(y("~"), "");
    assert_eq!(y("[a, b]"), "- a\n- b");
    assert_eq!(y("{ k: v }"), "k: v");
}

#[test]
fn tokens_are_checked_in_order() {
    let mut tokens: StrMap<String> = StrMap::new();
    tokens.insert("a".into(), "t".into());
    tokens.insert("b".into(), " \t".into());
    let names = |v: &[&str]| v.iter().map(|s| s.to_string()).collect::<Vec<String>>();
    assert!(check_tokens(&names(&["a"]), &tokens).is_ok());
    assert!(check_tokens(&names(&[]), &tokens).is_ok());
    let blank = check_tokens(&names(&["a", "b", "c"]), &tokens).unwrap_err();
    assert!(matches!(&blank, TokenError::Blank(p) if p == "b"));
    assert_eq!(blank.message("e.yaml"), "token for profile 'b' is EMPTY in env file e.yaml");
    let missing = check_tokens(&names(&["c", "b"]), &tokens).unwrap_err();
    assert_eq!(missing.message("e.yaml"), "token for profile 'c' not found in env file e.yaml");
    assert_eq!(
        missing.prompt(),
        "token for profile 'c' is empty — set it in the connection panel"
    );
}

#[test]
fn maps_keep_their_keys_in_order() {
    let mut m: StrMap<u8> = StrMap::new();
    for (k, v) in [("b", 2), ("a", 1), ("é", 4), ("ab", 3), ("b", 5), ("", 0)] {
        m.insert(k.to_string(), v);
    }
    let all: Vec<(&str, u8)> =
        (0..m.len()).map(|i| m.entry(i)).map(|(k, v)| (k.as_str(), *v)).collect();
    assert_eq!(all, vec![("", 0), ("a", 1), ("ab", 3), ("b", 5), ("é", 4)]);
    assert_eq!(m.get("ab"), Some(&3));
    assert_eq!(m.get("c"), None);
    assert_eq!(m.clone().len(), 5);
}
