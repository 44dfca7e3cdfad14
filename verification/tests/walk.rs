use flowrun::cli::{exit_code, parse_kv};
use flowrun::config::{FlowConfig, StepConfig};
use flowrun::diagram::NodeState;
use flowrun::engine::{Ctx, Outcome, Reply};
use flowrun::flow::{load, Flow};
use flowrun::strmap::StrMap;
use flowrun::walk::{answer_of, Asked, Then, Walk};
use flowrun::worker::{
    exec, skip_result, snapshot_vars, Cmd, Evt, Job, Moved, Todo, Walker,
};

fn flow(src: &str, requests: &[&str]) -> Flow {
    let mut cfg = FlowConfig::default();
    for id in requests {
        cfg.steps.insert(
            id.to_string(),
            StepConfig { request: Some(format!("GET /{id}")), ..Default::default() },
        );
    }
    load(src.to_string(), cfg).unwrap()
}

fn vars(pairs: &[(&str, &str)]) -> StrMap<String> {
    let mut m: StrMap<String> = StrMap::new();
    for (k, v) in pairs {
        m.insert(k.to_string(), v.to_string());
    }
    m
}

#[test]
fn answers_are_trimmed_and_small() {
    assert_eq!(answer_of(Some("  VARS \n".to_string())), "vars");
    assert_eq!(answer_of(Some("ÄÖ".to_string())), "äö");
    assert_eq!(answer_of(Some("".to_string())), "");
    assert_eq!(answer_of(None), "q");
}

#[test]
fn interactive_run_of_a_chain() {
    let f = flow("flowchart LR\n  a --> b --> c\n", &["a", "b"]);
    let v = vars(&[]);
    let mut w = Walk::begin(&f);
    assert_eq!((w.cur, w.ran), (0, 1));
    let t = w.answer(&f, &v, "vars");
    assert!(matches!(t.next, Then::ShowVars));
    assert_eq!((w.cur, w.ran, t.mark), (0, 1, None));
    let t = w.answer(&f, &v, "");
    assert!(matches!(t.next, Then::Run));
    let t = w.report(&f, &v, &Outcome::Failed("x".into()));
    assert!(matches!(t.next, Then::AskRetry));
    assert_eq!((t.at, t.mark), (0, Some(NodeState::Fail)));
    assert!(matches!(w.asked, Asked::Retry));
    let t = w.answer(&f, &v, "r");
    assert!(matches!(t.next, Then::Run));
    let t = w.report(&f, &v, &Outcome::Passed);
    assert!(matches!(t.next, Then::AskStep));
    assert_eq!((t.at, t.mark, w.cur, w.ran), (0, Some(NodeState::Passed), 1, 2));
    let t = w.answer(&f, &v, "s");
    assert_eq!((t.mark, w.cur), (Some(NodeState::Skip), 2));
    // The last step is manual: any answer but q goes on.
    let t = w.answer(&f, &v, "s");
    assert_eq!((t.at, t.mark), (2, Some(NodeState::Manual)));
    // The failure is remembered although the step passed afterwards.
    assert!(matches!(t.next, Then::Stop(false)));
}

#[test]
fn quitting_and_giving_up() {
    let f = flow("flowchart LR\n  a --> b\n", &["a"]);
    let v = vars(&[]);
    let mut w = Walk::begin(&f);
    assert!(matches!(w.answer(&f, &v, "q").next, Then::Stop(false)));
    w.report(&f, &v, &Outcome::Failed("x".into()));
    assert!(matches!(w.answer(&f, &v, "").next, Then::Stop(false)));
    w.report(&f, &v, &Outcome::Failed("x".into()));
    let t = w.answer(&f, &v, "s");
    assert_eq!((t.mark, w.cur), (Some(NodeState::Skip), 1));
    let mut w = Walk::begin(&f);
    assert_eq!(w.report(&f, &v, &Outcome::Skipped("r".into())).mark, Some(NodeState::Skip));
    assert!(matches!(w.answer(&f, &v, "x").next, Then::Stop(true)));
}

const BRANCHED: &str = "flowchart TD\n  a -->|m == x| b\n  a -->|m == y| c\n  b --> d\n  c --> d\n";

#[test]
fn branches_are_taken_by_number() {
    let f = flow(BRANCHED, &["a"]);
    let v = vars(&[("m", "z")]);
    let mut w = Walk::begin(&f);
    let t = w.report(&f, &v, &Outcome::Passed);
    assert!(matches!(t.next, Then::AskBranch));
    assert_eq!((w.cur, t.mark), (0, Some(NodeState::Passed)));
    for bad in ["0", "3", "x", "", "-1", "99999999999999999999999"] {
        assert!(matches!(w.answer(&f, &v, bad).next, Then::AskAgain), "{bad}");
    }
    let t = w.answer(&f, &v, "2");
    assert!(matches!(t.next, Then::AskStep));
    assert_eq!((f.steps[w.cur].node_id.as_str(), w.ran, t.mark), ("c", 2, None));
    let mut w = Walk::begin(&f);
    w.report(&f, &v, &Outcome::Passed);
    assert!(matches!(w.answer(&f, &v, "q").next, Then::Stop(false)));
    // A condition that holds decides.
    let mut w = Walk::begin(&f);
    w.report(&f, &vars(&[("m", "y")]), &Outcome::Passed);
    assert_eq!(f.steps[w.cur].node_id, "c");
}

#[test]
fn unattended_runs_stop_on_failure_and_never_guess() {
    let f = flow(BRANCHED, &["a", "c"]);
    let v = vars(&[("m", "y")]);
    let mut w = Walk::begin(&f);
    assert!(matches!(w.auto_enter(&f, &v).next, Then::Run));
    let t = w.auto_report(&f, &v, &Outcome::Passed);
    assert!(matches!(t.next, Then::AskStep));
    assert_eq!(f.steps[w.cur].node_id, "c");
    let t = w.auto_report(&f, &v, &Outcome::Failed("x".into()));
    assert!(matches!(t.next, Then::Stop(false)));
    assert_eq!(t.mark, Some(NodeState::Fail));
    let t = w.auto_report(&f, &v, &Outcome::Skipped("r".into()));
    assert_eq!((t.mark, w.cur), (Some(NodeState::Skip), 3));
    let t = w.auto_enter(&f, &v);
    assert_eq!(t.mark, Some(NodeState::Manual));
    assert!(matches!(t.next, Then::Stop(true)));
    let mut w = Walk::begin(&f);
    match w.auto_report(&f, &vars(&[]), &Outcome::Passed).next {
        Then::Ambiguous(o) => assert_eq!(
            o,
            vec![(1, "m == x".to_string()), (2, "m == y".to_string())]
        ),
        other => panic!("{other:?}"),
    }
    let broken = flow("flowchart TD\n  a -->|m| b\n  a --> c\n", &[]);
    let mut w = Walk::begin(&broken);
    match w.auto_enter(&broken, &v).next {
        Then::Error(e) => assert_eq!(
            e.message(),
            "skip_if hanya mendukung `==` / `!=`: m"
        ),
        other => panic!("{other:?}"),
    }
}

#[test]
fn a_walk_enters_no_step_twice() {
    let f = flow(BRANCHED, &[]);
    let v = vars(&[("m", "x")]);
    let mut w = Walk::begin(&f);
    let mut seen = vec![w.cur];
    loop {
        let t = w.auto_enter(&f, &v);
        match t.next {
            Then::AskStep => seen.push(w.cur),
            Then::Stop(ok) => {
                assert!(ok);
                break;
            }
            other => panic!("{other:?}"),
        }
    }
    assert!(seen.windows(2).all(|p| p[0] < p[1]));
    assert_eq!(seen.len(), w.ran);
    assert!(w.ran <= f.steps.len());
}

#[test]
fn key_values() {
    assert_eq!(parse_kv(" a = b=c "), Ok(("a".to_string(), "b=c".to_string())));
    assert_eq!(parse_kv("="), Ok(("".to_string(), "".to_string())));
    assert_eq!(
        parse_kv("ab"),
        Err("--var format must be key=value, got: ab".to_string())
    );
}

#[test]
fn exit_codes() {
    assert_eq!(exit_code(&Ok(true)), 0);
    assert_eq!(exit_code(&Ok(false)), 1);
    assert_eq!(exit_code(&Err("x".to_string())), 2);
}

fn ctx() -> Ctx {
    Ctx { base_url: "http://h".into(), tokens: StrMap::new(), vars: vars(&[("m", "0")]) }
}

#[test]
fn worker_takes_steps_and_resets() {
    let f = flow("flowchart LR\n  a --> b --> c\n", &["a", "b", "c"]);
    let mut c = ctx();
    let initial = c.vars.clone();
    let mut w = Walker::new(f.start);
    let (told, todo) = w.command(&f, &mut c, &initial, Cmd::Next);
    assert!(told.is_empty());
    assert_eq!(todo, Todo::Run(0, Job::Next));
    let (told, todo) = w.finish(&f, &c.vars, Job::Next, 0, true);
    assert!(told.is_empty());
    assert_eq!((todo, w.cur), (Todo::Wait, 1));
    // A failed step stays the current one.
    w.finish(&f, &c.vars, Job::Next, 1, false);
    assert_eq!(w.cur, 1);
    // A rerun of another step does not move.
    w.command(&f, &mut c, &initial, Cmd::RunAt(0));
    w.finish(&f, &c.vars, Job::RunAt, 0, true);
    assert_eq!(w.cur, 1);
    // A rerun of the current step does.
    w.finish(&f, &c.vars, Job::RunAt, 1, true);
    assert_eq!(w.cur, 2);
    let (_, todo) = w.command(&f, &mut c, &initial, Cmd::RunAt(3));
    assert_eq!(todo, Todo::Wait);
    c.vars.insert("m".into(), "1".into());
    let (told, _) = w.command(&f, &mut c, &initial, Cmd::Skip);
    match &told[0] {
        Evt::Done(r) => {
            assert_eq!((r.idx, r.state, r.msg.as_str()), (2, NodeState::Skip, "skipped (manual)"));
            assert_eq!(r.vars, vec![("m".to_string(), "1".to_string())]);
        }
        other => panic!("{other:?}"),
    }
    assert!(matches!(told[1], Evt::FlowDone));
    assert!(w.finished && !w.free());
    // Nothing more runs but by number.
    assert_eq!(w.command(&f, &mut c, &initial, Cmd::Next).1, Todo::Wait);
    assert_eq!(
        w.command(&f, &mut c, &initial, Cmd::RunAt(1)).1,
        Todo::Run(1, Job::RunAt)
    );
    let (told, todo) = w.command(&f, &mut c, &initial, Cmd::Auto);
    assert!(matches!(told[0], Evt::AutoDone));
    assert_eq!(todo, Todo::Wait);
    let (told, _) = w.command(&f, &mut c, &initial, Cmd::Reset);
    assert!(matches!(told[0], Evt::Reset));
    assert_eq!(w, Walker::new(f.start));
    assert_eq!(c.vars.get("m").unwrap(), "0");
    assert_eq!(w.command(&f, &mut c, &initial, Cmd::Quit).1, Todo::Quit);
}

#[test]
fn worker_runs_on_its_own() {
    let f = flow("flowchart LR\n  a --> b\n", &["a", "b"]);
    let mut c = ctx();
    let initial = c.vars.clone();
    let mut w = Walker::new(f.start);
    assert_eq!(w.command(&f, &mut c, &initial, Cmd::Auto).1, Todo::Run(0, Job::Auto));
    assert_eq!(
        w.finish(&f, &c.vars, Job::Auto, 0, true).1,
        Todo::Pause(1, Job::Auto)
    );
    let (told, todo) = w.finish(&f, &c.vars, Job::Auto, 1, false);
    assert!(matches!(told[0], Evt::AutoDone));
    assert_eq!((todo, w.cur), (Todo::Wait, 1));
    let (told, _) = w.finish(&f, &c.vars, Job::Auto, 1, true);
    assert!(matches!(told[0], Evt::FlowDone));
    assert!(matches!(told[1], Evt::AutoDone));
}

#[test]
fn worker_asks_at_branches() {
    let f = flow(BRANCHED, &[]);
    let mut c = ctx();
    let initial = c.vars.clone();
    let mut w = Walker::new(f.start);
    let (moved, told) = w.resolve_next(&f, &c.vars);
    assert_eq!(moved, Moved::NeedPick);
    assert!(matches!(&told[0], Evt::NeedChoice(o) if o.len() == 2));
    assert!(w.pending);
    assert_eq!(w.command(&f, &mut c, &initial, Cmd::Skip).1, Todo::Wait);
    w.command(&f, &mut c, &initial, Cmd::Choose(2));
    assert_eq!((w.cur, w.pending), (2, false));
    // No choice is pending: nothing is chosen.
    w.command(&f, &mut c, &initial, Cmd::Choose(1));
    assert_eq!(w.cur, 2);
    // A condition that is none makes it a choice, with the labels as they are.
    let broken = flow("flowchart TD\n  a -->|m| b\n  a --> c\n", &[]);
    let mut w = Walker::new(broken.start);
    let (_, told) = w.resolve_next(&broken, &c.vars);
    match &told[0] {
        Evt::NeedChoice(o) => {
            assert_eq!(o, &vec![(1, "m".to_string()), (2, "".to_string())])
        }
        other => panic!("{other:?}"),
    }
}

#[test]
fn worker_results() {
    let f = flow("flowchart LR\n  a --> b\n", &["a"]);
    let mut c = ctx();
    let (r, ok) = exec(&f, &mut c, 0, |q| {
        assert_eq!(q.url, "http://h/a");
        Ok(Reply { status: 404, ms: 7, text: "{}".to_string() })
    });
    assert!(!ok);
    assert_eq!((r.state, r.status, r.ms), (NodeState::Fail, Some(404), 7));
    assert_eq!(r.msg, "HTTP 404 (bukan 2xx)");
    let (r, ok) = exec(&f, &mut c, 0, |_| {
        Ok(Reply { status: 200, ms: 7, text: "{}".to_string() })
    });
    assert!(ok);
    assert_eq!((r.state, r.msg.as_str()), (NodeState::Passed, ""));
    let (r, ok) = exec(&f, &mut c, 1, |_| panic!("a manual step sends nothing"));
    assert!(ok);
    assert_eq!((r.state, r.msg.as_str()), (NodeState::Manual, "manual/external step"));
    assert_eq!(skip_result(4, &c.vars).idx, 4);
    assert_eq!(snapshot_vars(&c.vars), vec![("m".to_string(), "0".to_string())]);
}

/// Obeys the commands with a server that answers by the path alone, and gives the
/// events without their times.
fn obey(f: &Flow, c: &mut Ctx, w: &mut Walker, cmds: Vec<Cmd>, first_ms: u128) -> Vec<String> {
    let initial = ctx().vars;
    let mut told: Vec<Evt> = Vec::new();
    let mut ms = first_ms;
    for cmd in cmds {
        let (events, mut todo) = w.command(f, c, &initial, cmd);
        told.extend(events);
        while let Todo::Run(i, job) | Todo::Pause(i, job) = todo {
            told.push(Evt::Started(i));
            ms += 1;
            let (result, ok) = exec(f, c, i, |q| {
                let status = if q.url.ends_with("/d") { 500 } else { 200 };
                Ok(Reply { status, ms, text: "{\"v\": \"1\"}".to_string() })
            });
            told.push(Evt::Done(result));
            let (events, next) = w.finish(f, &c.vars, job, i, ok);
            told.extend(events);
            todo = next;
        }
        if todo == Todo::Quit {
            break;
        }
    }
    told.iter_mut()
        .map(|e| {
            if let Evt::Done(r) = e {
                r.ms = 0;
            }
            format!("{e:?}")
        })
        .collect()
}

#[test]
fn a_reset_worker_does_what_a_new_one_does() {
    let mut cfg = FlowConfig::default();
    for id in ["a", "b", "d"] {
        let mut step = StepConfig { request: Some(format!("GET /{id}")), ..Default::default() };
        step.capture.insert("m".into(), "v".into());
        cfg.steps.insert(id.to_string(), step);
    }
    let src = "flowchart LR\n  a --> b\n  b -->|m == 1| c\n  b -->|m == 0| d\n";
    let f = load(src.to_string(), cfg).unwrap();
    let histories = || {
        vec![
            vec![],
            vec![Cmd::Auto],
            vec![Cmd::Skip, Cmd::Skip, Cmd::Next],
            vec![Cmd::Next, Cmd::RunAt(2), Cmd::Skip, Cmd::Reset, Cmd::Skip],
        ]
    };
    let plans = || {
        vec![
            vec![Cmd::Auto],
            vec![Cmd::Skip, Cmd::Skip, Cmd::Auto, Cmd::Next],
            vec![Cmd::RunAt(0), Cmd::Next, Cmd::Choose(3), Cmd::Quit, Cmd::Next],
        ]
    };
    for h in 0..histories().len() {
        for p in 0..plans().len() {
            let mut c = ctx();
            let mut w = Walker::new(f.start);
            obey(&f, &mut c, &mut w, histories().remove(h), 10);
            assert_eq!(obey(&f, &mut c, &mut w, vec![Cmd::Reset], 50), vec!["Reset"]);
            assert_eq!(w, Walker::new(f.start));
            assert_eq!(snapshot_vars(&c.vars), snapshot_vars(&ctx().vars));
            let again = obey(&f, &mut c, &mut w, plans().remove(p), 90);
            let mut fresh_c = ctx();
            let mut fresh_w = Walker::new(f.start);
            assert_eq!(again, obey(&f, &mut fresh_c, &mut fresh_w, plans().remove(p), 0));
            assert!(!again.is_empty());
            assert_eq!(w, fresh_w);
        }
    }
}
