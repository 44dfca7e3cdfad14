use flowrun::config::{EnvConfig, FlowConfig, StepConfig};
use flowrun::diagram::NodeState;
use flowrun::flow::{load, Flow};
use flowrun::layout::{order_by_key, snake_cell, snake_link, snake_rows, Link};
use flowrun::palette::{
    channels, http_badge, label_color, method_color, node_color, role_color, role_of,
    state_badge, state_color, state_sign, Role,
};
use flowrun::picker::{push_recent, remember, Picker, RecentEntry};
use flowrun::session::{
    done_line, endpoint_parts, node_positions, pretty_block, LayoutDir, Session, StepMeta,
};
use flowrun::tree::tree_row;
use flowrun::worker::{Evt, StepResult};
use serde_json::Value;

fn flow(src: &str) -> Flow {
    let mut cfg = FlowConfig::default();
    cfg.steps.insert(
        "a".into(),
        StepConfig {
            auth: Some("owner".into()),
            request: Some("GET /a".into()),
            note: Some("n".into()),
            ..Default::default()
        },
    );
    load(src.to_string(), cfg).unwrap()
}

fn result(idx: usize, state: NodeState) -> StepResult {
    StepResult {
        idx,
        state,
        status: Some(200),
        ms: 12,
        msg: "ok".into(),
        request_line: None,
        request_body: None,
        curl: None,
        auth_info: None,
        notes: vec![],
        body: None,
        vars: vec![("k".into(), "v".into())],
    }
}

#[test]
fn session_opens_idle() {
    let f = flow("flowchart LR\n  a[Satu] --> b\n");
    let s = Session::open(&f, "http://h//");
    assert_eq!(s.base_url, "http://h");
    assert_eq!(s.dir, LayoutDir::Snake);
    assert_eq!(s.states, vec![NodeState::Idle, NodeState::Idle]);
    assert!(s.results.iter().all(|r| r.is_none()));
    assert_eq!(s.meta[0].role, Role::Owner);
    assert_eq!(s.meta[0].endpoint, "GET /a");
    assert_eq!(s.meta[0].title, "Satu");
    assert_eq!(s.meta[1].endpoint, "(manual)");
    assert_eq!(StepMeta::of(&f.steps[0]).note.as_deref(), Some("n"));
    assert!(s.can_step());
    let b = flow("flowchart LR\n  a --> b\n  a --> c\n");
    assert_eq!(Session::open(&b, "").dir, LayoutDir::TD);
}

#[test]
fn events_change_one_step_and_the_log() {
    let f = flow("flowchart LR\n  a[Satu] --> b --> c\n");
    let mut s = Session::open(&f, "h");
    s.take_event(Evt::Started(0), 5);
    assert_eq!(s.states[0], NodeState::Current);
    assert_eq!((s.selected, s.center_on), (Some(0), Some(0)));
    assert_eq!(s.log[0].text, "→ a Satu  GET /a");
    assert_eq!((s.log[0].t, s.log[0].color), (5, 0x9ca3af));
    assert_eq!(s.take_center(), Some(0));
    assert_eq!(s.take_center(), None);
    s.follow = false;
    s.take_event(Evt::Started(1), 6);
    assert_eq!(s.center_on, None);
    let mut r = result(0, NodeState::Passed);
    r.notes = vec!["n1".into(), "n2".into()];
    s.take_event(Evt::Done(r), 7);
    assert_eq!(s.states, vec![NodeState::Passed, NodeState::Current, NodeState::Idle]);
    assert_eq!(s.vars, vec![("k".to_string(), "v".to_string())]);
    assert_eq!(s.log[2].text, "✅ a HTTP 200 · 12 ms  ok");
    assert_eq!(s.log[2].detail.as_deref(), Some("      n1\n      n2"));
    assert_eq!(s.progress(), "visited 2/3   ✅ 1  ❌ 0");
    s.take_event(Evt::NeedChoice(vec![(1, "x".into()), (2, "".into())]), 8);
    assert_eq!(s.log[3].text, "🔀 choose branch: b (x) · c ()");
    assert!(!s.can_step());
    assert_eq!(s.branch_text(1, "x"), "→ b   (x)");
    assert_eq!(s.branch_text(1, ""), "→ b");
    s.choose_branch(2, 9);
    assert_eq!((s.selected, s.pending.is_none()), (Some(2), true));
    assert_eq!(s.log[4].text, "↪ branch chosen: c");
    s.take_event(Evt::FlowDone, 10);
    assert!(s.finished && s.is_dimmed(2) && !s.is_dimmed(0));
    assert_eq!(s.progress(), "visited 2/3   ✅ 1  ❌ 0  🎉 done");
    assert!(s.edge_is_done(0) && !s.edge_is_done(1) && !s.edge_is_done(usize::MAX));
    s.start_auto();
    s.take_event(Evt::AutoDone, 11);
    assert!(!s.auto_running);
    s.take_event(Evt::Reset, 12);
    assert_eq!(s.states, vec![NodeState::Idle; 3]);
    assert!(s.results.iter().all(|r| r.is_none()) && s.vars.is_empty());
    assert_eq!((s.selected, s.finished), (None, false));
    assert_eq!(s.log.len(), 8);
}

#[test]
fn the_log_folds() {
    let f = flow("flowchart LR\n  a --> b\n");
    let mut s = Session::open(&f, "h");
    assert_eq!(s.fold_button(), None);
    s.take_event(Evt::AutoDone, 0);
    assert_eq!(s.fold_button(), None);
    let mut r = result(0, NodeState::Fail);
    r.msg = "one\ntwo".into();
    s.take_event(Evt::Done(r), 0);
    assert_eq!(s.log[1].text, "❌ a HTTP 200 · 12 ms  one");
    assert_eq!(s.log[1].detail.as_deref(), Some("two"));
    assert_eq!(s.fold_button(), Some(true));
    s.toggle_line(1);
    assert_eq!(s.fold_button(), Some(false));
    s.fold_all(false);
    assert!(!s.log[1].expanded && !s.log[0].expanded);
    s.fold_all(true);
    assert!(s.log[1].expanded && !s.log[0].expanded);
}

#[test]
fn only_chains_are_snakes() {
    let f = flow("flowchart LR\n  a --> b\n  a --> c\n");
    let mut s = Session::open(&f, "h");
    assert!(!s.set_dir(LayoutDir::Snake));
    assert!(!s.set_dir(LayoutDir::TD));
    assert!(s.set_dir(LayoutDir::LR));
    assert_eq!(s.dir, LayoutDir::LR);
    s.mark_fitted();
    assert_eq!((s.center_on, s.fitted), (Some(0), true));
    s.select(2);
    s.mark_fitted();
    assert_eq!(s.center_on, Some(2));
}

#[test]
fn lines_of_results() {
    let mut r = result(0, NodeState::Skip);
    r.status = None;
    r.request_line = Some("GET u".into());
    r.auth_info = Some("owner".into());
    r.request_body = Some(Value::from(1));
    r.body = Some(Value::from("x"));
    assert_eq!(
        done_line("n1", &r),
        "⏭ n1   ok\n      → GET u\n      🔑 auth    : owner\n      ⇢ payload :\n        1\n      ⇠ response:\n        \"x\""
    );
    let long = Value::Array((0..50).map(Value::from).collect());
    assert!(pretty_block("l", &long)
        .ends_with("\n        … (dipangkas — lengkap di panel kanan)"));
}

#[test]
fn positions_and_endpoints() {
    let f = flow("flowchart LR\n  a --> b\n");
    let p = node_positions(&f);
    assert_eq!((p.get("a"), p.get("b"), p.get("z")), (Some(&0), Some(&1), None));
    assert_eq!(endpoint_parts("GET /x y"), ("GET".to_string(), "/x y".to_string()));
    assert_eq!(endpoint_parts("(manual)"), ("".to_string(), "(manual)".to_string()));
}

fn entry(n: &str) -> RecentEntry {
    RecentEntry { flow: n.into(), cfg: "c".into(), env: None }
}

#[test]
fn recent_flows_are_distinct_and_few() {
    let mut list: Vec<RecentEntry> = Vec::new();
    for i in 0..12 {
        list = push_recent(list, entry(&format!("f{i}")));
    }
    let names: Vec<&str> = list.iter().map(|e| e.flow.as_str()).collect();
    assert_eq!(names, vec!["f11", "f10", "f9", "f8", "f7", "f6", "f5", "f4"]);
    list = push_recent(list, entry("f8"));
    let names: Vec<&str> = list.iter().map(|e| e.flow.as_str()).collect();
    assert_eq!(names, vec!["f8", "f11", "f10", "f9", "f7", "f6", "f5", "f4"]);
    // The environment tells entries apart.
    let mut other = entry("f8");
    other.env = Some("e".into());
    assert_eq!(push_recent(list, other).len(), 8);
}

#[test]
fn paths_are_told_apart_by_their_components() {
    let same = |a: &str, b: &str| push_recent(vec![entry(a)], entry(b)).len() == 1;
    // The spelling of the flow that was opened last is kept.
    let list = push_recent(vec![entry("/x//f.mmd")], entry("/x/f.mmd"));
    assert_eq!(list.len(), 1);
    assert_eq!(list[0].flow, "/x/f.mmd");
    assert!(same("a/./b/", "a/b"));
    assert!(same("/a//", "/a"));
    assert!(same("/./a", "/a"));
    assert!(same("/.", "/"));
    assert!(same(".//a", "./a/."));
    assert!(!same("./a", "a"));
    assert!(!same(".", ""));
    assert!(!same("/a", "a"));
    assert!(!same("a/../b", "b"));
    assert!(!same("a/b", "a"));
    // The other files count in the same way.
    let env = |e: Option<&str>, c: &str| RecentEntry {
        flow: "f".into(),
        cfg: c.into(),
        env: e.map(|x| x.to_string()),
    };
    assert_eq!(push_recent(vec![env(Some("d/e"), "c/")], env(Some("d//e"), "c")).len(), 1);
    assert_eq!(push_recent(vec![env(Some("d"), "c")], env(Some("e"), "c")).len(), 2);
    assert_eq!(push_recent(vec![env(Some(""), "c")], env(None, "c")).len(), 2);
    assert_eq!(push_recent(vec![env(None, "c")], env(None, "d")).len(), 2);
}

#[test]
fn marked_entries_are_forgotten() {
    let list = || vec![entry("a"), entry("b"), entry("c")];
    let names = |v: Vec<RecentEntry>| v.into_iter().map(|e| e.flow).collect::<Vec<_>>();
    assert_eq!(names(remember(list(), entry("z"), &vec![false, true, false])), ["z", "a", "c"]);
    assert_eq!(names(remember(list(), entry("b"), &vec![true, true, true])), ["b"]);
    assert_eq!(names(remember(list(), entry("b"), &vec![false; 3])), ["b", "a", "b", "c"]);
    assert_eq!(names(remember(vec![], entry("z"), &vec![])), ["z"]);
    let many = (0..8).map(|i| entry(&format!("f{i}"))).collect();
    assert_eq!(names(remember(many, entry("z"), &vec![false; 8])).last().unwrap(), "f6");
}

/// The same file is one entry however the platform separates its parts.
#[test]
fn paths_are_compared_as_the_platform_compares_them() {
    let all = ["a\\b", "a/b", "C:x", "c:x", "//h/s/f", "/h/s/f", "a:b", "a"];
    for x in all {
        for y in all {
            let one = push_recent(vec![entry(x)], entry(y)).len() == 1;
            assert_eq!(one, std::path::Path::new(x) == std::path::Path::new(y), "{x} {y}");
        }
    }
}

#[test]
fn picking_a_flow_suggests_the_rest() {
    let dir = |names: &[&str]| {
        names.iter().map(|n| (n.to_string(), format!("d/{n}"))).collect::<Vec<_>>()
    };
    let mut p = Picker::new(vec![entry("old")]);
    assert!(p.vars_open && !p.is_ready());
    assert!(p.to_open().is_none());
    assert_eq!(p.error.as_deref(), Some("select flow.mmd and flow.yaml first"));
    p.on_flow_picked("d/x.mmd".into(), &dir(&["env.sample.yaml", "env.yaml", "flow.yaml"]));
    assert_eq!(p.cfg.as_deref(), Some("d/flow.yaml"));
    assert_eq!(p.env.as_deref(), Some("d/env.yaml"));
    assert!(p.is_ready());
    // What is chosen already stays.
    p.on_flow_picked("e/y.mmd".into(), &dir(&["dev.yaml"]));
    assert_eq!(p.env.as_deref(), Some("d/env.yaml"));
    assert_eq!(p.flow.as_deref(), Some("e/y.mmd"));
    let o = p.to_open().unwrap();
    assert_eq!((o.flow.as_str(), o.cfg.as_str()), ("e/y.mmd", "d/flow.yaml"));
    p.pick_recent(&entry("r"));
    assert_eq!((p.flow.as_deref(), p.env.as_deref()), (Some("r"), None));
}

#[test]
fn connections_are_edited() {
    let mut env = EnvConfig::default();
    env.base_url = " http://h ".into();
    env.tokens.insert("z".into(), " tz ".into());
    env.tokens.insert("b".into(), "tb".into());
    env.vars.insert("n".into(), serde_yaml::from_str("3").unwrap());
    let mut p = Picker::new(vec![]);
    p.error = Some("e".into());
    p.reload_draft(&vec!["c".to_string(), "b".to_string()], &env);
    assert_eq!(p.error, None);
    let pair = |a: &str, b: &str| (a.to_string(), b.to_string());
    assert_eq!(p.tokens, vec![pair("c", ""), pair("b", "tb"), pair("z", " tz ")]);
    assert_eq!(p.vars, vec![pair("n", "3")]);
    p.new_var_k = "  ".into();
    p.add_var();
    assert_eq!(p.vars.len(), 1);
    p.new_var_k = " k ".into();
    p.new_var_v = " v ".into();
    p.add_var();
    assert_eq!(p.vars[1], pair("k", " v "));
    assert!(p.new_var_k.is_empty() && p.new_var_v.is_empty());
    let e = p.to_env_config();
    assert_eq!(e.base_url, "http://h");
    assert_eq!(e.tokens.get("z").unwrap(), "tz");
    assert_eq!(e.tokens.get("c").unwrap(), "");
    assert_eq!(e.vars.get("n").unwrap(), &serde_yaml::Value::String("3".into()));
    p.remove_var(0);
    assert_eq!(p.vars, vec![pair("k", " v ")]);
}

#[test]
fn snakes_turn_at_the_edge() {
    let cells: Vec<(usize, usize)> = (0..7).map(|k| snake_cell(k, 3)).collect();
    assert_eq!(cells, vec![(0, 0), (0, 1), (0, 2), (1, 2), (1, 1), (1, 0), (2, 0)]);
    let links: Vec<Link> = (0..6).map(|k| snake_link(k, 3)).collect();
    assert_eq!(
        links,
        vec![Link::Right, Link::Right, Link::Down, Link::Left, Link::Left, Link::Down]
    );
    assert_eq!((snake_rows(0, 3), snake_rows(3, 3), snake_rows(4, 3)), (0, 1, 2));
    assert_eq!(order_by_key(&vec![2, 0, usize::MAX, 1, 0]), vec![1, 4, 3, 0, 2]);
}

#[test]
fn colors() {
    assert_eq!(role_of(Some("customer")), Role::Customer);
    assert_eq!(role_of(Some("owner")), Role::Owner);
    assert_eq!(role_of(Some("x")), Role::Neutral);
    assert_eq!(role_of(None), Role::Neutral);
    assert_eq!(role_color(Role::Owner), 0xf59e0b);
    assert_eq!(state_color(NodeState::Current), 0x3b82f6);
    assert_eq!(node_color(NodeState::Current, Role::Owner), 0xeab308);
    assert_eq!(node_color(NodeState::Idle, Role::Customer), 0x2c4a7a);
    assert_eq!(label_color(NodeState::Idle), 0xffffff);
    assert_eq!(label_color(NodeState::Passed), 0x0b1220);
    assert_eq!(state_badge(NodeState::Idle), ("antre", 0x64748b));
    assert_eq!(state_sign(NodeState::Current), ("·", 0x9ca3af));
    assert_eq!(method_color("PUT"), 0x38bdf8);
    assert_eq!(method_color("put"), 0x64748b);
    assert_eq!(http_badge(Some(500)), ("HTTP 500".to_string(), 0xef4444));
    assert_eq!(http_badge(Some(404)), ("HTTP 404".to_string(), 0xf59e0b));
    assert_eq!(http_badge(Some(399)), ("HTTP 399".to_string(), 0x22c55e));
    assert_eq!(http_badge(None), ("—".to_string(), 0x94a3b8));
    assert_eq!(channels(0x12ab34), (0x12, 0xab, 0x34));
}

#[test]
fn trees_of_documents() {
    let v: Value = serde_json::from_str(r#"{"data":{"b":[1,{}],"a":null},"e":[]}"#).unwrap();
    let root = tree_row("response", &v);
    assert_eq!((root.text.as_str(), root.open), ("response {2}", true));
    assert_eq!(root.children[1].0, "e");
    let e = tree_row(&root.children[1].0, root.children[1].1);
    assert_eq!((e.text.as_str(), e.open, e.children.len()), ("e: []", false, 0));
    let data = tree_row("data", root.children[0].1);
    assert!(data.open);
    assert_eq!(tree_row("a", data.children[0].1).text, "a: null");
    let b = tree_row("b", data.children[1].1);
    assert_eq!((b.text.as_str(), b.open), ("b [2]", false));
    assert_eq!((b.children[0].0.as_str(), b.children[1].0.as_str()), ("0", "1"));
    assert_eq!(tree_row("1", b.children[1].1).text, "1: {}");
    assert!(!tree_row("response", b.children[1].1).open);
}
