//! Project types and the directory name each one selects.
use vstd::prelude::*;

verus! {

/// The directory name a project type selects: dependency trees for `node`
/// and `npm`, compiled output for `cargo` and `rust`, bytecode caches for
/// `python`. Any other type selects nothing.
pub open spec fn target_for(kind: Seq<char>) -> Option<Seq<char>> {
    if kind == "node"@ || kind == "npm"@ {
        Some("node_modules"@)
    } else if kind == "cargo"@ || kind == "rust"@ {
        Some("target"@)
    } else if kind == "python"@ {
        Some("__pycache__"@)
    } else {
        None
    }
}

/// The directory name to scan for, given a project type; `None` for a type
/// that is not supported.
pub fn target_name_for(kind: &str) -> (r: Option<String>)
    ensures
        r.is_some() == target_for(kind@).is_some(),
        r.is_some() ==> r->0@ == target_for(kind@)->0,
{
    let k = kind.to_owned();
    if k == "node".to_owned() || k == "npm".to_owned() {
        Some("node_modules".to_owned())
    } else if k == "cargo".to_owned() || k == "rust".to_owned() {
        Some("target".to_owned())
    } else if k == "python".to_owned() {
        Some("__pycache__".to_owned())
    } else {
        None
    }
}

} // verus!
