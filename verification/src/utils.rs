//! Paths as texts.

use vstd::prelude::*;

use crate::text::{chars_of, push_all, string_of};

verus! {

/// The path of `s2` below the directory `s1`: the two are set side by side,
/// with a `/` between them unless `s1` ends in one.
pub open spec fn joined_path(s1: Seq<char>, s2: Seq<char>) -> Seq<char> {
    if s1.len() > 0 && s1.last() == '/' {
        s1 + s2
    } else {
        s1 + seq!['/'] + s2
    }
}

/// Joins a directory and a path below it.
pub fn join_path(s1: &str, s2: &str) -> (path: String)
    ensures
        path@ == joined_path(s1@, s2@),
{
    let mut out = chars_of(s1);
    let rest = chars_of(s2);
    if out.len() == 0 || out[out.len() - 1] != '/' {
        out.push('/');
    }
    push_all(&mut out, rest.as_slice());
    string_of(out.as_slice())
}

} // verus!
