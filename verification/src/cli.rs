//! Command-line values: `key=value` arguments and exit codes.

use crate::text::{law_texts_are_cut_at_the_first, split_once, split_once_text, trim, trimmed};
use vstd::prelude::*;

verus! {

/// What a `key=value` argument sets: both sides without surrounding white space,
/// or the message that there is no `=`.
pub open spec fn key_value(s: Seq<char>) -> Result<(Seq<char>, Seq<char>), Seq<char>> {
    match split_once(s, '=') {
        Some(p) => Ok((trimmed(p.0), trimmed(p.1))),
        None => Err("--var format must be key=value, got: "@ + s),
    }
}

/// Parses a `key=value` argument, at its first `=`.
pub fn parse_kv(s: &str) -> (r: Result<(String, String), String>)
    ensures
        match r {
            Ok(p) => key_value(s@) == Ok::<(Seq<char>, Seq<char>), Seq<char>>((p.0@, p.1@)),
            Err(e) => key_value(s@) == Err::<(Seq<char>, Seq<char>), Seq<char>>(e@),
        },
{
    match split_once_text(s, '=') {
        Some(p) => Ok((trim(p.0.as_str()), trim(p.1.as_str()))),
        None => Err("--var format must be key=value, got: ".to_owned().concat(s)),
    }
}

/// The exit code of a run: 0 where all went well, 1 where a step failed or the
/// operator quit, 2 where the run could not be carried out.
pub fn exit_code(run: &Result<bool, String>) -> (code: i32)
    ensures
        code == match *run {
            Ok(b) => if b {
                0i32
            } else {
                1i32
            },
            Err(_) => 2i32,
        },
{
    match run {
        Ok(b) => if *b {
            0
        } else {
            1
        },
        Err(_) => 2,
    }
}

/// An argument sets what stands before its first `=` to all that stands after it,
/// both without white space around them. An argument without `=` sets nothing and
/// is named in the message.
pub proof fn law_arguments_set_a_key_to_a_value(k: Seq<char>, v: Seq<char>)
    requires
        !k.contains('='),
    ensures
        key_value(k + seq!['='] + v) == Ok::<(Seq<char>, Seq<char>), Seq<char>>(
            (trimmed(k), trimmed(v)),
        ),
        key_value(k) == Err::<(Seq<char>, Seq<char>), Seq<char>>(
            "--var format must be key=value, got: "@ + k,
        ),
{
    law_texts_are_cut_at_the_first(k, '=', v);
}

} // verus!
