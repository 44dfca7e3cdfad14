use flowrun::config::{yaml_to_var_string, EnvConfig, FlowConfig, StepConfig};
use flowrun::strmap::StrMap;
use serde_yaml::Value;

fn map<V>(v: &Value, key: &str, read: impl Fn(&Value) -> V) -> StrMap<V> {
    let mut out = StrMap::new();
    if let Some(m) = v.get(key).and_then(Value::as_mapping) {
        for (k, x) in m {
            out.insert(k.as_str().unwrap().to_string(), read(x));
        }
    }
    out
}

fn text(v: &Value) -> String {
    v.as_str().unwrap().to_string()
}

fn step(v: &Value) -> StepConfig {
    StepConfig {
        auth: v.get("auth").map(text),
        request: v.get("request").map(text),
        headers: map(v, "headers", text),
        body: v.get("body").cloned(),
        capture: map(v, "capture", text),
        asserts: map(v, "assert", Value::clone),
        skip_if: v.get("skip_if").map(text),
        manual: v.get("manual").and_then(Value::as_bool).unwrap_or(false),
        note: v.get("note").map(text),
    }
}

#[test]
fn parse_sidecar_minimal() {
    let y = r#"
auth_profiles: [customer, owner]
vars: { pay_mode: cod, qty: 3 }
steps:
  n01:
    auth: customer
    request: POST /api/v1/customer/orders
    body: { outlet_id: "{{outlet_id}}", items: [{ item_id: "{{item_id}}", quantity: 3 }] }
    capture: { order_id: data.id }
    assert: { status: 2xx, "data.status": pending }
  n10:
    auth: owner
    request: POST /api/v1/tenant/orders/{{order_id}}/confirm-cod
    skip_if: "pay_mode != cod"
"#;
    let v: Value = serde_yaml::from_str(y).unwrap();
    let cfg = FlowConfig {
        auth_profiles: v["auth_profiles"].as_sequence().unwrap().iter().map(text).collect(),
        vars: map(&v, "vars", Value::clone),
        steps: map(&v, "steps", step),
    };
    assert_eq!(cfg.auth_profiles, vec!["customer", "owner"]);
    assert_eq!(yaml_to_var_string(cfg.vars.get("qty").unwrap()), "3");
    let n01 = cfg.steps.get("n01").unwrap();
    assert_eq!(n01.request.as_deref(), Some("POST /api/v1/customer/orders"));
    assert_eq!(n01.capture.get("order_id").unwrap(), "data.id");
    assert_eq!(yaml_to_var_string(n01.asserts.get("status").unwrap()), "2xx");
    assert_eq!(
        cfg.steps.get("n10").unwrap().skip_if.as_deref(),
        Some("pay_mode != cod")
    );
}

#[test]
fn parse_env() {
    let y = r#"
base_url: https://api.example.test
tokens: { customer: tokC, owner: tokO }
vars: { outlet_id: abc }
"#;
    let v: Value = serde_yaml::from_str(y).unwrap();
    let env = EnvConfig {
        base_url: text(&v["base_url"]),
        tokens: map(&v, "tokens", text),
        vars: map(&v, "vars", Value::clone),
    };
    assert_eq!(env.base_url, "https://api.example.test");
    assert_eq!(env.tokens.get("owner").unwrap(), "tokO");
}

#[test]
fn defaults_are_empty() {
    let s = StepConfig::default();
    assert!(s.is_manual() && !s.manual);
    assert_eq!((s.headers.len(), s.capture.len(), s.asserts.len()), (0, 0, 0));
    let copy = StepConfig { request: Some("GET /x".into()), ..Default::default() }.clone();
    assert_eq!(copy.request.as_deref(), Some("GET /x"));
    assert!(!copy.is_manual());
    assert_eq!(FlowConfig::default().steps.len(), 0);
    assert_eq!(EnvConfig::default().base_url, "");
}
