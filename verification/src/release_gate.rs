//! The checks a release must pass.
use vstd::prelude::*;

use crate::text::{owned, views};

verus! {

/// The release gate: unit, integration and snapshot tests, and a smoke run
/// on each of macOS, Ubuntu and Windows.
pub open spec fn release_gate() -> Seq<Seq<char>> {
    seq![
        "unit_tests"@,
        "integration_tests"@,
        "snapshot_tests"@,
        "smoke:macos-latest"@,
        "smoke:ubuntu-latest"@,
        "smoke:windows-latest"@,
    ]
}

/// The requirements of the release gate, in order.
pub fn release_gate_requirements() -> (r: Vec<String>)
    ensures
        views(r@) == release_gate(),
{
    let mut r: Vec<String> = Vec::new();
    r.push(owned("unit_tests"));
    r.push(owned("integration_tests"));
    r.push(owned("snapshot_tests"));
    r.push(owned("smoke:macos-latest"));
    r.push(owned("smoke:ubuntu-latest"));
    r.push(owned("smoke:windows-latest"));
    assert(views(r@) =~= release_gate());
    r
}

} // verus!
