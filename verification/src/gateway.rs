//! The default-handler gateway's decision logic: what the raw outcome of an
//! invocation of the external registry tool means. The invocation itself is
//! an adapter concern outside this library; the interpretation of its answer
//! is specified and verified here.
use crate::text::trim_spec;
use crate::text::trim_str;
use vstd::prelude::*;

verus! {

/// The view of an optional string.
pub open spec fn opt_view(o: Option<String>) -> Option<Seq<char>> {
    match o {
        None => None,
        Some(s) => Some(s@),
    }
}

/// What a raw registry answer means: a failed invocation is "no default set";
/// otherwise the output is trimmed, and only a non-blank remainder names a
/// handler.
pub open spec fn query_result_spec(raw: Option<Seq<char>>) -> Option<Seq<char>> {
    match raw {
        None => None,
        Some(s) => if trim_spec(s).len() == 0 {
            None
        } else {
            Some(trim_spec(s))
        },
    }
}

/// Interprets the raw outcome of a default-handler query. `raw` is `None`
/// when the invocation failed in any way; otherwise it holds the tool's
/// output. Blank output also collapses to "no default set": that is a
/// normal answer, never an error.
pub fn interpret_query_output(raw: Option<String>) -> (r: Option<String>)
    ensures
        opt_view(r) == query_result_spec(opt_view(raw)),
{
    match raw {
        None => None,
        Some(s) => {
            let t = trim_str(s.as_str());
            if t.as_str().is_empty() {
                None
            } else {
                Some(t)
            }
        },
    }
}

} // verus!
