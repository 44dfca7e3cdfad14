use flowrun::config::{EnvConfig, FlowConfig, StepConfig};
use flowrun::engine::{
    build_request, choose_next, dot_get, eval_skip_if, run_step, status_matches, template,
    template_json, value_to_var, Ctx, Next, Outcome, Reply, Request,
};
use flowrun::flow::{FlowEdge, FlowStep};
use flowrun::strmap::StrMap;
use serde_json::Value;

fn vars(pairs: &[(&str, &str)]) -> StrMap<String> {
    let mut m: StrMap<String> = StrMap::new();
    for (k, v) in pairs {
        m.insert(k.to_string(), v.to_string());
    }
    m
}

#[test]
fn template_replaces_and_reports_missing() {
    let v = vars(&[("a", "1"), ("b", "x")]);
    assert_eq!(template("/o/{{a}}/i/{{b}}", &v).unwrap(), "/o/1/i/x");
    let err = template("/o/{{zzz}}", &v).unwrap_err().message();
    assert!(err.contains("zzz"));
}

#[test]
fn dot_get_walks_objects_and_arrays() {
    let j: Value =
        serde_json::from_str(r#"{"data":{"order_lists":[{"id":"OL1"}],"n":5}}"#).unwrap();
    assert_eq!(dot_get(&j, "data.order_lists.0.id").unwrap(), "OL1");
    assert_eq!(dot_get(&j, "data.n").unwrap(), 5);
    assert!(dot_get(&j, "data.zzz").is_none());
}

#[test]
fn skip_if_eq_and_neq() {
    let v = vars(&[("pay_mode", "digital")]);
    assert!(eval_skip_if("pay_mode != cod", &v).unwrap());
    assert!(!eval_skip_if("pay_mode == cod", &v).unwrap());
    assert!(eval_skip_if("tidak_ada == ", &v).unwrap());
}

#[test]
fn status_patterns() {
    assert!(status_matches("2xx", 201));
    assert!(!status_matches("2xx", 404));
    assert!(status_matches("409", 409));
}

#[test]
fn choose_next_rules() {
    let e = |to: usize, cond: Option<&str>| FlowEdge {
        from: 0,
        to,
        cond: cond.map(str::to_string),
        label: cond.map(str::to_string),
    };
    let v = vars(&[("pay_mode", "cod")]);
    assert_eq!(choose_next(&[], &v).unwrap(), Next::End);
    let a = e(1, None);
    assert_eq!(choose_next(&[&a], &v).unwrap(), Next::Advance(1));
    let c1 = e(2, Some("pay_mode == cod"));
    let c2 = e(3, None);
    assert_eq!(choose_next(&[&c1, &c2], &v).unwrap(), Next::Advance(2));
    let c3 = e(4, Some("pay_mode == digital"));
    assert_eq!(choose_next(&[&c3, &c2], &v).unwrap(), Next::Advance(3));
    let c4 = e(5, Some("pay_mode == transfer"));
    assert!(matches!(choose_next(&[&c3, &c4], &v).unwrap(), Next::Pick(_)));
}

/// A server that answers every request with the same reply.
fn mock_server(
    response_json: &'static str,
    status: u16,
) -> impl FnOnce(Request) -> Result<Reply, String> {
    move |_request| Ok(Reply { status, ms: 1, text: response_json.to_string() })
}

fn step(request: &str, cfg_extra: impl FnOnce(&mut StepConfig)) -> FlowStep {
    let mut cfg = StepConfig { request: Some(request.into()), ..Default::default() };
    cfg_extra(&mut cfg);
    FlowStep { node_id: "t".into(), title: "t".into(), cfg, unconfigured: false }
}

fn ctx() -> Ctx {
    Ctx { base_url: "http://127.0.0.1".into(), tokens: StrMap::new(), vars: StrMap::new() }
}

#[test]
fn run_step_captures_and_asserts() {
    let send = mock_server(r#"{"success":true,"data":{"id":"ORD1","status":"pending"}}"#, 201);
    let mut ctx = ctx();
    let s = step("POST /api/v1/customer/orders", |c| {
        c.capture.insert("order_id".into(), "data.id".into());
        c.asserts.insert("status".into(), serde_yaml::Value::String("2xx".into()));
        c.asserts.insert("data.status".into(), serde_yaml::Value::String("pending".into()));
    });
    let rep = run_step(&s, &mut ctx, send);
    assert_eq!(rep.outcome, Outcome::Passed, "notes={:?}", rep.notes);
    assert_eq!(ctx.vars.get("order_id").unwrap(), "ORD1");
}

#[test]
fn run_step_fails_on_wrong_status_value() {
    let send = mock_server(r#"{"data":{"status":"accepted"}}"#, 200);
    let mut ctx = ctx();
    let s = step("GET /x", |c| {
        c.asserts.insert("data.status".into(), serde_yaml::Value::String("pending".into()));
    });
    let rep = run_step(&s, &mut ctx, send);
    match rep.outcome {
        Outcome::Failed(msg) => assert!(msg.contains("accepted"), "{msg}"),
        other => panic!("harap Failed, dapat {other:?}"),
    }
}

#[test]
fn run_step_default_requires_2xx() {
    let send = mock_server(r#"{"success":false}"#, 502);
    let mut ctx = ctx();
    let s = step("GET /x", |_| {});
    let rep = run_step(&s, &mut ctx, send);
    assert!(matches!(rep.outcome, Outcome::Failed(_)));
    assert_eq!(rep.http_status, Some(502));
}

fn yaml(s: &str) -> serde_yaml::Value {
    serde_yaml::from_str(s).unwrap()
}

fn never(_request: Request) -> Result<Reply, String> {
    panic!("nothing is to be sent")
}

#[test]
fn template_trims_names_and_keeps_unclosed_marks() {
    let v = vars(&[("a", "1"), ("b", "{{a}}")]);
    assert_eq!(template("{{ a }}-{{\ta\n}}", &v).unwrap(), "1-1");
    assert_eq!(template("plain } text {", &v).unwrap(), "plain } text {");
    assert_eq!(template("x {{a", &v).unwrap(), "x {{a");
    assert_eq!(template("{{a}} {{a", &v).unwrap(), "1 {{a");
    // A value is not a template.
    assert_eq!(template("{{b}}", &v).unwrap(), "{{a}}");
    assert_eq!(template("", &v).unwrap(), "");
}

#[test]
fn template_names_every_missing_variable() {
    let v = vars(&[("a", "1")]);
    let err = template("{{x}}{{a}}{{ y }}{{x}}", &v).unwrap_err();
    assert_eq!(err.message(), "var belum terisi: x, y, x");
}

#[test]
fn template_json_fills_texts_only() {
    let v = vars(&[("id", "7"), ("k", "key")]);
    let body: Value =
        serde_json::from_str(r#"{"{{k}}":"{{id}}","n":3,"l":["a{{id}}",null,true,{"z":"{{id}}"}]}"#)
            .unwrap();
    let want: Value =
        serde_json::from_str(r#"{"{{k}}":"7","n":3,"l":["a7",null,true,{"z":"7"}]}"#).unwrap();
    assert_eq!(template_json(&body, &v).unwrap(), want);
    let bad: Value = serde_json::from_str(r#"{"a":["{{id}}","{{no}}"],"b":"{{other}}"}"#).unwrap();
    assert_eq!(template_json(&bad, &v).unwrap_err().message(), "var belum terisi: no");
}

#[test]
fn dot_get_edge_cases() {
    let j: Value = serde_json::from_str(r#"{"a":[10,20],"":{"":1},"s":"t"}"#).unwrap();
    assert_eq!(dot_get(&j, "a.1").unwrap(), 20);
    assert_eq!(dot_get(&j, "a.+1").unwrap(), 20);
    assert!(dot_get(&j, "a.2").is_none());
    assert!(dot_get(&j, "a.-1").is_none());
    assert!(dot_get(&j, "a.x").is_none());
    assert!(dot_get(&j, "a.99999999999999999999999").is_none());
    assert!(dot_get(&j, "s.0").is_none());
    assert_eq!(dot_get(&j, ".").unwrap(), 1);
    assert!(dot_get(&j, "a.").is_none());
}

#[test]
fn paths_compose() {
    let j: Value = serde_json::from_str(r#"{"a":{"b":[{"c":5}]}}"#).unwrap();
    let whole = dot_get(&j, "a.b.0.c").unwrap();
    let half = dot_get(&j, "a.b").unwrap();
    assert_eq!(dot_get(half, "0.c").unwrap(), whole);
}

#[test]
fn values_as_variables() {
    let j: Value =
        serde_json::from_str(r#"["t",5,2.5,true,null,{"b":1,"a":[1, 2]}]"#).unwrap();
    let got: Vec<String> = (0..6).map(|i| value_to_var(&j[i])).collect();
    assert_eq!(got, vec!["t", "5", "2.5", "true", "null", r#"{"a":[1,2],"b":1}"#]);
}

#[test]
fn conditions_take_the_first_unequal_sign() {
    let v = vars(&[("a", "x == y"), ("b", "")]);
    // `!=` is looked for first, wherever it stands.
    assert!(eval_skip_if("a != x", &v).unwrap());
    // Here the left side is `b == c`, which is no variable.
    assert!(eval_skip_if("b == c != d", &v).unwrap());
    assert!(eval_skip_if("b==\"\"", &v).unwrap());
    assert!(eval_skip_if("b == '\"\"'", &v).unwrap() == false);
    assert!(eval_skip_if("b == \"''\"", &v).unwrap());
    assert!(!eval_skip_if("b != ", &v).unwrap());
    let err = eval_skip_if("a > b", &v).unwrap_err();
    assert_eq!(err.message(), "skip_if hanya mendukung `==` / `!=`: a > b");
}

#[test]
fn opposite_conditions_disagree() {
    let v = vars(&[("mode", "cod")]);
    for right in ["cod", "digital", "", "\"cod\"", "'x'"] {
        let eq = eval_skip_if(&format!("mode == {right}"), &v).unwrap();
        let ne = eval_skip_if(&format!("mode != {right}"), &v).unwrap();
        assert_ne!(eq, ne);
    }
}

#[test]
fn status_pattern_edge_cases() {
    assert!(status_matches(" 2xx ", 299));
    assert!(status_matches("+200", 200));
    assert!(!status_matches("xx", 200));
    assert!(!status_matches("2XX", 200));
    assert!(!status_matches("70000", 200));
    assert!(!status_matches("", 200));
    assert!(status_matches("0xx", 99));
}

#[test]
fn choices_and_broken_conditions() {
    let e = |to: usize, cond: Option<&str>, label: Option<&str>| FlowEdge {
        from: 0,
        to,
        cond: cond.map(str::to_string),
        label: label.map(str::to_string),
    };
    let v = vars(&[("m", "x")]);
    let a = e(1, Some("m == x"), Some("m == x"));
    let b = e(2, Some("m != y"), Some("m != y"));
    let c = e(3, None, None);
    // Two conditions hold: a choice between all edges.
    assert_eq!(
        choose_next(&[&a, &b, &c], &v).unwrap(),
        Next::Pick(vec![
            (1, "m == x".to_string()),
            (2, "m != y".to_string()),
            (3, "(tanpa syarat)".to_string()),
        ])
    );
    // One edge with a condition that does not hold.
    let d = e(4, Some("m == y"), Some("m == y"));
    assert_eq!(
        choose_next(&[&d], &v).unwrap(),
        Next::Pick(vec![(4, "m == y".to_string())])
    );
    let broken = e(5, Some("m"), Some("m"));
    assert_eq!(
        choose_next(&[&a, &broken], &v).unwrap_err().message(),
        "skip_if hanya mendukung `==` / `!=`: m"
    );
}

#[test]
fn ctx_overlays_in_order() {
    let mut flow_cfg = FlowConfig::default();
    flow_cfg.vars.insert("a".into(), yaml("flow"));
    flow_cfg.vars.insert("b".into(), yaml("flow"));
    flow_cfg.vars.insert("c".into(), yaml("3"));
    flow_cfg.vars.insert("l".into(), yaml("[1, two]"));
    let mut env = EnvConfig::default();
    env.base_url = "http://h/x//".into();
    env.tokens.insert("owner".into(), "tokO".into());
    env.vars.insert("b".into(), yaml("env"));
    env.vars.insert("d".into(), yaml("true"));
    env.vars.insert("e".into(), yaml("~"));
    let cli = vec![
        ("b".to_string(), "first".to_string()),
        ("b".to_string(), "cli".to_string()),
    ];
    let ctx = Ctx::build(&flow_cfg, env, &cli);
    assert_eq!(ctx.base_url, "http://h/x");
    assert_eq!(ctx.tokens.get("owner").unwrap(), "tokO");
    let get = |k: &str| ctx.vars.get(k).unwrap().as_str();
    assert_eq!((get("a"), get("b"), get("c"), get("d"), get("e")), ("flow", "cli", "3", "true", ""));
    assert_eq!(get("l"), "- 1\n- two");
}

#[test]
fn requests_carry_token_headers_and_body() {
    let mut ctx = ctx();
    ctx.base_url = "http://h".into();
    ctx.tokens.insert("owner".into(), "tokO".into());
    ctx.vars.insert("id".into(), "42".into());
    let s = step(" PATCH   /o/{{id}} ", |_| {});
    // The line begins with a blank: what stands before it is no method.
    let rep = run_step(&s, &mut ctx, never);
    assert_eq!(
        rep.outcome,
        Outcome::Failed("HTTP method tidak dikenal: invalid HTTP method".into())
    );
    let s = step("PATCH   /o/{{id}} ", |c| {
        c.auth = Some("owner".into());
        c.headers.insert("X-B".into(), "b{{id}}".into());
        c.headers.insert("X-A".into(), "a".into());
        c.body = Some(yaml("{ id: \"{{id}}\", n: 3 }"));
    });
    let q = build_request(&s.cfg, &ctx).unwrap();
    assert_eq!(q.method, "PATCH");
    assert_eq!(q.url, "http://h/o/42");
    assert_eq!(q.bearer.as_deref(), Some("tokO"));
    assert_eq!(
        q.headers,
        vec![
            ("X-A".to_string(), "a".to_string()),
            ("X-B".to_string(), "b42".to_string())
        ]
    );
    let want: Value = serde_json::from_str(r#"{"id":"42","n":3}"#).unwrap();
    assert_eq!(q.body, Some(want));
}

#[test]
fn every_error_fails_the_step_before_sending() {
    let fails = |s: &FlowStep| {
        let mut ctx = ctx();
        let rep = run_step(s, &mut ctx, never);
        assert_eq!(rep.http_status, None);
        match rep.outcome {
            Outcome::Failed(m) => m,
            other => panic!("{other:?}"),
        }
    };
    assert_eq!(fails(&step("GET", |_| {})), "request harus `METHOD /path`: GET");
    assert_eq!(
        fails(&step("G(T /x", |_| {})),
        "HTTP method tidak dikenal: invalid HTTP method"
    );
    assert_eq!(fails(&step("GET /{{a}}", |_| {})), "var belum terisi: a");
    assert_eq!(
        fails(&step("GET /x", |c| c.auth = Some("owner".into()))),
        "token profil auth 'owner' tidak ada di env file"
    );
    assert_eq!(
        fails(&step("GET /x", |c| c.headers.insert("H".into(), "{{h}}".into()))),
        "var belum terisi: h"
    );
    assert_eq!(
        fails(&step("GET /x", |c| c.body = Some(yaml("{ a: \"{{b}}\" }")))),
        "var belum terisi: b"
    );
    assert_eq!(
        fails(&step("GET /x", |c| c.skip_if = Some("a".into()))),
        "skip_if hanya mendukung `==` / `!=`: a"
    );
    let m = fails(&step("GET /x", |c| c.body = Some(yaml("{ [1, 2]: 3 }"))));
    assert!(m.starts_with("body YAML → JSON: "), "{m}");
}

#[test]
fn a_failed_send_fails_the_step() {
    let mut ctx = ctx();
    let s = step("GET /x", |c| c.capture.insert("a".into(), "b".into()));
    let rep = run_step(&s, &mut ctx, |_| Err("no route".to_string()));
    assert_eq!(rep.outcome, Outcome::Failed("kirim request: no route".into()));
    assert!(ctx.vars.get("a").is_none());
}

#[test]
fn manual_and_skipped_steps_send_nothing() {
    let mut ctx = ctx();
    let manual = FlowStep {
        node_id: "m".into(),
        title: "m".into(),
        cfg: StepConfig::default(),
        unconfigured: false,
    };
    assert_eq!(run_step(&manual, &mut ctx, never).outcome, Outcome::Manual);
    let s = step("GET /x", |c| c.manual = true);
    assert_eq!(run_step(&s, &mut ctx, never).outcome, Outcome::Manual);
    let s = step("GET /x", |c| c.skip_if = Some("a == ".into()));
    assert_eq!(
        run_step(&s, &mut ctx, never).outcome,
        Outcome::Skipped("skip_if: a == ".into())
    );
    assert_eq!(ctx.vars.len(), 0);
}

#[test]
fn captures_come_before_expectations() {
    let mut ctx = ctx();
    let s = step("GET /x", |c| {
        c.capture.insert("id".into(), "data.id".into());
        c.capture.insert("no".into(), "data.no".into());
        c.asserts.insert("data.id".into(), yaml("\"{{id}}\""));
        c.asserts.insert("data.gone".into(), yaml("x"));
        c.asserts.insert("data.n".into(), yaml("4"));
        c.asserts.insert("status".into(), yaml("201"));
    });
    let rep = run_step(&s, &mut ctx, mock_server(r#"{"data":{"id":"A","n":5}}"#, 200));
    assert_eq!(
        rep.outcome,
        Outcome::Failed(
            "data.gone: tidak ada di response (harap x); data.n = 5 ≠ 4; status 200 ≠ 201".into()
        )
    );
    assert_eq!(
        rep.notes,
        vec!["capture id = A", "capture no: path `data.no` tidak ada di response"]
    );
    assert_eq!((rep.http_status, rep.ms), (Some(200), 1));
    assert_eq!(ctx.vars.get("id").unwrap(), "A");
    // What a step captures is there for the next one.
    assert_eq!(template("/o/{{id}}", &ctx.vars).unwrap(), "/o/A");
}

#[test]
fn an_expectation_that_cannot_be_filled_fails_after_the_captures() {
    let mut ctx = ctx();
    let s = step("GET /x", |c| {
        c.capture.insert("id".into(), "id".into());
        c.asserts.insert("a".into(), yaml("\"{{none}}\""));
    });
    let rep = run_step(&s, &mut ctx, mock_server(r#"{"id":1}"#, 200));
    assert_eq!(rep.outcome, Outcome::Failed("var belum terisi: none".into()));
    assert_eq!((rep.http_status, rep.notes.len()), (None, 0));
    assert_eq!(ctx.vars.get("id").unwrap(), "1");
}

#[test]
fn a_text_that_is_no_json_is_a_text() {
    let mut ctx = ctx();
    let s = step("GET /x", |_| {});
    let rep = run_step(&s, &mut ctx, mock_server("<html>", 204));
    assert_eq!(rep.outcome, Outcome::Passed);
    assert_eq!(rep.body, Some(Value::String("<html>".into())));
    let rep = run_step(&s, &mut ctx, mock_server("nope", 301));
    assert_eq!(rep.outcome, Outcome::Failed("HTTP 301 (bukan 2xx)".into()));
    // A status that is asked for itself may be any.
    let s = step("GET /x", |c| c.asserts.insert("status".into(), yaml("404")));
    assert_eq!(run_step(&s, &mut ctx, mock_server("", 404)).outcome, Outcome::Passed);
}

#[test]
fn other_variables_stay() {
    let mut ctx = ctx();
    ctx.vars.insert("keep".into(), "1".into());
    ctx.vars.insert("id".into(), "old".into());
    let s = step("GET /x", |c| c.capture.insert("id".into(), "id".into()));
    run_step(&s, &mut ctx, mock_server(r#"{"id":"new","keep":"2"}"#, 200));
    assert_eq!(ctx.vars.get("keep").unwrap(), "1");
    assert_eq!(ctx.vars.get("id").unwrap(), "new");
}
