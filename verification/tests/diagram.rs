use flowrun::config::FlowConfig;
use flowrun::diagram::{
    mermaid_with_status, preview_reply, render_source_svg, render_status_svg, NodeState,
};
use flowrun::engine::{Outcome, StepReport};
use flowrun::flow::load;
use flowrun::runner_ui::{pretty, report_lines, Ui};
use serde_json::Value;

#[test]
fn overlay_appends_classes_and_renders() {
    let src = "flowchart LR\n  a[Satu]:::cust --> b[Dua]\n  classDef cust fill:#3b82f6\n";
    let states =
        vec![("a".to_string(), NodeState::Passed), ("b".to_string(), NodeState::Current)];
    let mmd = mermaid_with_status(src, &states);
    assert!(mmd.contains("class a frOk"));
    assert!(mmd.contains("class b frCur"));
    let svg = render_status_svg(src, &states).unwrap();
    assert!(svg.contains("<svg"), "output bukan SVG");
}

#[test]
fn overlay_is_the_source_and_the_classes() {
    let states = vec![
        ("a".to_string(), NodeState::Idle),
        ("b".to_string(), NodeState::Fail),
        ("c".to_string(), NodeState::Skip),
        ("d".to_string(), NodeState::Manual),
    ];
    let mmd = mermaid_with_status("flowchart LR\n  a --> b \n\n", &states);
    assert_eq!(
        mmd,
        "flowchart LR\n  a --> b\n\
         classDef frCur fill:#eab308,stroke:#a16207,color:#1c1400\n\
         classDef frOk fill:#22c55e,stroke:#15803d,color:#052e12\n\
         classDef frFail fill:#ef4444,stroke:#b91c1c,color:#fff\n\
         classDef frSkip fill:#94a3b8,stroke:#64748b,color:#111\n\
         classDef frMan fill:#a78bfa,stroke:#7c3aed,color:#1e1033\n\
         class b frFail\nclass c frSkip\nclass d frMan\n"
    );
}

#[test]
fn classes_of_states() {
    assert_eq!(NodeState::Idle.class(), None);
    assert_eq!(NodeState::Passed.class(), Some("frOk"));
}

#[test]
fn a_source_that_cannot_be_parsed_is_an_error() {
    let e = render_source_svg("flowchart LR\n  a -->\n  -->").unwrap_err();
    assert!(e.starts_with("render: "), "{e}");
    let e = render_status_svg("flowchart LR\n  a -->\n  -->", &[]).unwrap_err();
    assert!(e.starts_with("render SVG: "), "{e}");
    assert!(render_source_svg("flowchart LR\n  a --> b").unwrap().starts_with("<svg"));
    assert!(render_source_svg("pie\n  \"a\" : 1\n").unwrap().contains("<svg"));
}

#[test]
fn preview_replies() {
    assert_eq!(
        preview_reply("GET /flow.svg HTTP/1.1\r\n", "<svg>é</svg>"),
        "HTTP/1.1 200 OK\r\nContent-Type: image/svg+xml\r\nContent-Length: 13\r\nConnection: close\r\n\r\n<svg>é</svg>"
    );
    let page = preview_reply("GET / HTTP/1.1\r\n", "<svg/>");
    assert!(page.contains("Content-Type: text/html; charset=utf-8\r\n"));
    assert!(page.contains("<img src=/flow.svg"));
    let (head, body) = page.split_once("\r\n\r\n").unwrap();
    assert!(head.contains(&format!("Content-Length: {}\r\n", body.len())));
    assert_eq!(preview_reply("", "x"), page);
}

#[test]
fn board_counts_every_step_once() {
    let flow = load(
        "flowchart LR\n  a --> b --> c --> d --> e --> f\n".to_string(),
        FlowConfig::default(),
    )
    .unwrap();
    let (mut ui, svg) = Ui::new(&flow, false).unwrap();
    assert_eq!(svg, None);
    assert_eq!(ui.tally(), (0, 0, 0, 6));
    assert_eq!(ui.set_ok(0), Ok(None));
    ui.set_fail(1).unwrap();
    ui.set_skip(2).unwrap();
    ui.set_manual(3).unwrap();
    ui.set_current(4).unwrap();
    assert_eq!(ui.tally(), (1, 2, 2, 1));
    // A position that is no step changes nothing.
    ui.set_ok(99).unwrap();
    assert_eq!(ui.tally(), (1, 2, 2, 1));
    ui.set_ok(1).unwrap();
    assert_eq!(ui.tally(), (2, 1, 2, 1));
}

#[test]
fn a_live_board_draws_every_change() {
    let flow = load("flowchart LR\n  a --> b\n".to_string(), FlowConfig::default()).unwrap();
    let (mut ui, first) = Ui::new(&flow, true).unwrap();
    let first = first.unwrap();
    let second = ui.set_ok(0).unwrap().unwrap();
    assert!(first.contains("<svg") && second.contains("<svg"));
    assert_ne!(first, second);
    assert_eq!(ui.refresh().unwrap().unwrap(), second);
}

fn report(outcome: Outcome) -> StepReport {
    StepReport {
        outcome,
        http_status: None,
        ms: 0,
        body: None,
        notes: vec![],
        request_line: None,
        auth_info: None,
        request_body: None,
        curl: None,
    }
}

#[test]
fn reports_of_each_outcome() {
    let mut rep = report(Outcome::Passed);
    rep.http_status = Some(201);
    rep.ms = 15;
    rep.body = Some(serde_json::from_str::<Value>(r#"{"a":1}"#).unwrap());
    rep.notes = vec!["capture x = 1".to_string()];
    rep.request_line = Some("GET http://h/x".to_string());
    rep.auth_info = Some("owner".to_string());
    rep.request_body = Some(Value::Bool(true));
    rep.curl = Some("curl x".to_string());
    assert_eq!(
        report_lines(&rep),
        vec![
            "   → GET http://h/x",
            "   🔑 auth    : owner",
            "   ⇢ payload :\n      true",
            "   $ curl x",
            "   ⇠ response:\n      {\n        \"a\": 1\n      }",
            "   ✅ HTTP 201 (15 ms)",
            "      capture x = 1",
        ]
    );
    assert_eq!(report_lines(&report(Outcome::Passed)), vec!["   ✅ HTTP 0 (0 ms)"]);
    assert_eq!(report_lines(&StepReport::manual()), vec!["   ✋ langkah manual"]);
    assert_eq!(
        report_lines(&StepReport::skipped("r".to_string())),
        vec!["   ⏭  skip (r)"]
    );
    assert_eq!(
        report_lines(&StepReport::failed("m".to_string())),
        vec!["   ❌ GAGAL: m"]
    );
    let mut rep = report(Outcome::Failed("m".to_string()));
    rep.http_status = Some(500);
    rep.body = Some(Value::String("x".repeat(2000)));
    let lines = report_lines(&rep);
    assert_eq!(lines[1], "      HTTP 500 (0 ms)");
    assert_eq!(lines[2], format!("      body: \"{} …", "x".repeat(1499)));
}

#[test]
fn a_short_response_in_wide_characters_is_marked_by_its_bytes() {
    // 1202 characters, 3602 bytes: shown whole, with the mark.
    let mut rep = report(Outcome::Failed("m".to_string()));
    rep.body = Some(Value::String("→".repeat(1200)));
    assert_eq!(report_lines(&rep)[1], format!("      body: \"{}\" …", "→".repeat(1200)));
}

#[test]
fn long_documents_are_cut() {
    let v = Value::Array((0..60).map(Value::from).collect());
    let text = pretty(&v, "  ");
    assert_eq!(text.lines().count(), 42);
    assert!(text.starts_with("\n  [\n    0,\n"));
    assert!(text.ends_with("\n  … (dipangkas)"));
    let v = Value::Array((0..38).map(Value::from).collect());
    assert!(pretty(&v, "").ends_with("\n]"));
}

#[test]
fn every_kind_of_diagram_is_drawn() {
    for src in [
        "flowchart LR\n  a --> b\n",
        "stateDiagram-v2\n  a --> b\n",
        "sequenceDiagram\n  Alice->>Bob: hi\n",
        "classDiagram\n  class Duck\n",
        "erDiagram\n  A ||--o{ B : has\n",
        "journey\n  title T\n  section S\n    Tea: 5: Me\n",
        "pie\n  \"a\" : 1\n",
        "mindmap\n  root\n    leaf\n",
    ] {
        let svg = render_source_svg(src).unwrap();
        assert!(svg.starts_with("<svg "), "{src}");
        assert_eq!(render_source_svg(src).unwrap(), svg);
    }
    // The label is in the drawing.
    assert!(render_source_svg("sequenceDiagram\n  Alice->>Bob: hello\n").unwrap().contains("hello"));
}
