//! The colors of the window, as `0xRRGGBB`.

use crate::diagram::NodeState;
use crate::text::{decimal, decimal_of, same_text};
use vstd::prelude::*;

verus! {

/// Who a step speaks for.
#[derive(Debug, Clone, Copy, PartialEq, Eq, Structural)]
pub enum Role {
    Customer,
    Owner,
    Neutral,
}

/// The role of an auth profile.
pub open spec fn role_named(auth: Option<Seq<char>>) -> Role {
    match auth {
        Some(a) => if a == "customer"@ {
            Role::Customer
        } else if a == "owner"@ {
            Role::Owner
        } else {
            Role::Neutral
        },
        None => Role::Neutral,
    }
}

/// The role of an auth profile.
pub fn role_of(auth: Option<&str>) -> (r: Role)
    ensures
        r == role_named(
            match auth {
                Some(a) => Some(a@),
                None => None,
            },
        ),
{
    match auth {
        Some(a) => if same_text(a, "customer") {
            Role::Customer
        } else if same_text(a, "owner") {
            Role::Owner
        } else {
            Role::Neutral
        },
        None => Role::Neutral,
    }
}

/// The color of a role.
pub fn role_color(r: Role) -> (c: u32)
    ensures
        r == Role::Customer ==> c == 0x3b82f6,
        r == Role::Owner ==> c == 0xf59e0b,
        r == Role::Neutral ==> c == 0x64748b,
{
    match r {
        Role::Customer => 0x3b82f6,
        Role::Owner => 0xf59e0b,
        Role::Neutral => 0x64748b,
    }
}

/// The color of a status in the inspector.
pub open spec fn status_color_of(s: NodeState) -> u32 {
    match s {
        NodeState::Passed => 0x22c55e,
        NodeState::Fail => 0xef4444,
        NodeState::Skip => 0x94a3b8,
        NodeState::Manual => 0xa78bfa,
        NodeState::Current => 0x3b82f6,
        NodeState::Idle => 0x475569,
    }
}

/// The color of a status in the inspector.
pub fn state_color(s: NodeState) -> (c: u32)
    ensures
        c == status_color_of(s),
{
    match s {
        NodeState::Passed => 0x22c55e,
        NodeState::Fail => 0xef4444,
        NodeState::Skip => 0x94a3b8,
        NodeState::Manual => 0xa78bfa,
        NodeState::Current => 0x3b82f6,
        NodeState::Idle => 0x475569,
    }
}

/// The color of a node: that of its status, and while it is idle a dark shade of
/// its role.
pub open spec fn node_color_of(s: NodeState, r: Role) -> u32 {
    match s {
        NodeState::Current => 0xeab308,
        NodeState::Passed => 0x22c55e,
        NodeState::Fail => 0xef4444,
        NodeState::Skip => 0x94a3b8,
        NodeState::Manual => 0xa78bfa,
        NodeState::Idle => match r {
            Role::Customer => 0x2c4a7a,
            Role::Owner => 0x7a5320,
            Role::Neutral => 0x3a3f4b,
        },
    }
}

/// The color of a node.
pub fn node_color(s: NodeState, r: Role) -> (c: u32)
    ensures
        c == node_color_of(s, r),
{
    match s {
        NodeState::Current => 0xeab308,
        NodeState::Passed => 0x22c55e,
        NodeState::Fail => 0xef4444,
        NodeState::Skip => 0x94a3b8,
        NodeState::Manual => 0xa78bfa,
        NodeState::Idle => match r {
            Role::Customer => 0x2c4a7a,
            Role::Owner => 0x7a5320,
            Role::Neutral => 0x3a3f4b,
        },
    }
}

/// The color of the label of a node: light on the dark shades of a node that is
/// idle or current, dark on the others.
pub fn label_color(s: NodeState) -> (c: u32)
    ensures
        c == if s == NodeState::Idle || s == NodeState::Current {
            0xffffffu32
        } else {
            0x0b1220u32
        },
{
    match s {
        NodeState::Idle | NodeState::Current => 0xffffff,
        _ => 0x0b1220,
    }
}

/// The word for a status and its color.
pub open spec fn badge_of(s: NodeState) -> (Seq<char>, u32) {
    match s {
        NodeState::Passed => ("done"@, 0x22c55e),
        NodeState::Fail => ("failed"@, 0xef4444),
        NodeState::Skip => ("skipped"@, 0x94a3b8),
        NodeState::Manual => ("manual"@, 0xa78bfa),
        NodeState::Current => ("running"@, 0x3b82f6),
        NodeState::Idle => ("antre"@, 0x64748b),
    }
}

/// The word for a status and its color.
pub fn state_badge(s: NodeState) -> (r: (&'static str, u32))
    ensures
        (r.0@, r.1) == badge_of(s),
{
    match s {
        NodeState::Passed => ("done", 0x22c55e),
        NodeState::Fail => ("failed", 0xef4444),
        NodeState::Skip => ("skipped", 0x94a3b8),
        NodeState::Manual => ("manual", 0xa78bfa),
        NodeState::Current => ("running", 0x3b82f6),
        NodeState::Idle => ("antre", 0x64748b),
    }
}

/// The sign of a status in the log and its color.
pub open spec fn sign_of(s: NodeState) -> (Seq<char>, u32) {
    match s {
        NodeState::Passed => ("✅"@, 0x22c55e),
        NodeState::Fail => ("❌"@, 0xef4444),
        NodeState::Skip => ("⏭"@, 0x94a3b8),
        NodeState::Manual => ("✋"@, 0xa78bfa),
        _ => ("·"@, 0x9ca3af),
    }
}

/// The sign of a status in the log and its color.
pub fn state_sign(s: NodeState) -> (r: (&'static str, u32))
    ensures
        (r.0@, r.1) == sign_of(s),
{
    match s {
        NodeState::Passed => ("✅", 0x22c55e),
        NodeState::Fail => ("❌", 0xef4444),
        NodeState::Skip => ("⏭", 0x94a3b8),
        NodeState::Manual => ("✋", 0xa78bfa),
        _ => ("·", 0x9ca3af),
    }
}

/// The color of an HTTP method.
pub open spec fn method_color_of(m: Seq<char>) -> u32 {
    if m == "GET"@ {
        0x10b981
    } else if m == "POST"@ {
        0xf59e0b
    } else if m == "PUT"@ {
        0x38bdf8
    } else if m == "PATCH"@ {
        0xa78bfa
    } else if m == "DELETE"@ {
        0xef4444
    } else {
        0x64748b
    }
}

/// The color of an HTTP method.
pub fn method_color(m: &str) -> (c: u32)
    ensures
        c == method_color_of(m@),
{
    if same_text(m, "GET") {
        0x10b981
    } else if same_text(m, "POST") {
        0xf59e0b
    } else if same_text(m, "PUT") {
        0x38bdf8
    } else if same_text(m, "PATCH") {
        0xa78bfa
    } else if same_text(m, "DELETE") {
        0xef4444
    } else {
        0x64748b
    }
}

/// The text for an HTTP status and its color: red from 500 on, amber from 400
/// on, and else green.
pub open spec fn http_badge_of(status: Option<u16>) -> (Seq<char>, u32) {
    match status {
        Some(c) => (
            "HTTP "@ + decimal(c as nat),
            if c >= 500 {
                0xef4444u32
            } else if c >= 400 {
                0xf59e0bu32
            } else {
                0x22c55eu32
            },
        ),
        None => ("—"@, 0x94a3b8),
    }
}

/// The text for an HTTP status and its color.
pub fn http_badge(status: Option<u16>) -> (r: (String, u32))
    ensures
        (r.0@, r.1) == http_badge_of(status),
{
    match status {
        Some(c) => (
            "HTTP ".to_owned().concat(decimal_of(c as u128).as_str()),
            if c >= 500 {
                0xef4444
            } else if c >= 400 {
                0xf59e0b
            } else {
                0x22c55e
            },
        ),
        None => ("—".to_owned(), 0x94a3b8),
    }
}

/// The red, green and blue of a color.
pub fn channels(color: u32) -> (r: (u8, u8, u8))
    ensures
        r.0 == (color / 0x10000) % 0x100,
        r.1 == (color / 0x100) % 0x100,
        r.2 == color % 0x100,
{
    (
        ((color / 0x10000) % 0x100) as u8,
        ((color / 0x100) % 0x100) as u8,
        (color % 0x100) as u8,
    )
}

/// A status is shown in one color wherever it is shown: in the inspector, at a node,
/// in its badge and in the log, except that a node has colors of its own while it
/// is idle or current. No two statuses share a color, a badge or a node color.
pub proof fn law_a_status_has_one_color(s: NodeState, t: NodeState, r: Role, q: Role)
    ensures
        s != NodeState::Idle ==> badge_of(s).1 == status_color_of(s),
        s != NodeState::Idle && s != NodeState::Current ==> node_color_of(s, r)
            == status_color_of(s) && sign_of(s).1 == status_color_of(s),
        s != t ==> status_color_of(s) != status_color_of(t) && badge_of(s).1 != badge_of(t).1
            && node_color_of(s, r) != node_color_of(t, q),
        node_color_of(s, r) == node_color_of(s, q) <==> s != NodeState::Idle || r == q,
{
}

/// The text of an HTTP status is its number, and its color tells failures of the
/// server from those of the request and from all else.
pub proof fn law_http_colors_tell_failures_apart(a: u16, b: u16)
    ensures
        http_badge_of(Some(a)).0 == "HTTP "@ + decimal(a as nat),
        http_badge_of(Some(a)).1 == http_badge_of(Some(b)).1 <==> (a >= 500 <==> b >= 500) && (a
            >= 400 <==> b >= 400),
        http_badge_of(Some(a)).1 == status_color_of(NodeState::Fail) <==> a >= 500,
        http_badge_of(Some(a)).1 == status_color_of(NodeState::Passed) <==> a < 400,
{
}

/// A role is that of the profile with its name, and every other profile has none. A
/// status has a word and a sign of its own.
pub proof fn law_words_signs_and_roles(a: Seq<char>, s: NodeState)
    ensures
        role_named(Some(a)) == Role::Customer <==> a == "customer"@,
        a != "customer"@ ==> (role_named(Some(a)) == Role::Owner <==> a == "owner"@),
        role_named(None) == Role::Neutral,
        s == NodeState::Passed ==> badge_of(s).0 == "done"@ && sign_of(s).0 == "✅"@,
        s == NodeState::Fail ==> badge_of(s).0 == "failed"@ && sign_of(s).0 == "❌"@,
        s == NodeState::Skip ==> badge_of(s).0 == "skipped"@ && sign_of(s).0 == "⏭"@,
        s == NodeState::Manual ==> badge_of(s).0 == "manual"@ && sign_of(s).0 == "✋"@,
        s == NodeState::Current ==> badge_of(s).0 == "running"@,
        s == NodeState::Idle ==> badge_of(s).0 == "antre"@,
{
}

/// The usual methods have colors of their own: deleting that of a failure, reading a
/// green and posting an amber, and every other method the one neutral color.
pub proof fn law_methods_have_their_own_colors(a: Seq<char>, b: Seq<char>)
    ensures
        ({
            let usual = |m: Seq<char>|
                m == "GET"@ || m == "POST"@ || m == "PUT"@ || m == "PATCH"@ || m == "DELETE"@;
            &&& usual(a) && a != b ==> method_color_of(a) != method_color_of(b)
            &&& !usual(a) && !usual(b) ==> method_color_of(a) == method_color_of(b)
        }),
        method_color_of("DELETE"@) == status_color_of(NodeState::Fail),
        method_color_of("GET"@) == 0x10b981,
        method_color_of("POST"@) == 0xf59e0b,
{
    reveal_strlit("DELETE");
    reveal_strlit("PATCH");
    reveal_strlit("GET");
    reveal_strlit("POST");
    reveal_strlit("PUT");
    assert("DELETE"@[0] == 'D' && "PATCH"@[1] == 'A' && "GET"@[0] == 'G' && "POST"@[1] == 'O'
        && "PUT"@[1] == 'U' && "PATCH"@[0] == 'P' && "POST"@[0] == 'P' && "PUT"@[0] == 'P');
}

} // verus!
