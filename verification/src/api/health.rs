//! The bodies of the health and version endpoints.
use vstd::prelude::*;

verus! {

/// `{"status": ...}` of `/livez` and `/readyz`.
#[derive(Debug, Clone, Copy)]
pub struct HealthBody {
    pub status: &'static str,
}

/// Liveness: always `200` with status `ok`.
pub fn livez() -> (r: (u16, HealthBody))
    ensures
        r.0 == 200,
        r.1.status@ == "ok"@,
{
    (200, HealthBody { status: "ok" })
}

/// Readiness: `200` with status `ready` once every subsystem is up, else
/// `503` with status `starting`, so that load balancers drain.
pub fn readyz(ready: bool) -> (r: (u16, HealthBody))
    ensures
        ready ==> r.0 == 200 && r.1.status@ == "ready"@,
        !ready ==> r.0 == 503 && r.1.status@ == "starting"@,
{
    if ready {
        (200, HealthBody { status: "ready" })
    } else {
        (503, HealthBody { status: "starting" })
    }
}

/// Version facts of the build.
#[derive(Debug, Clone, Copy)]
pub struct VersionBody {
    pub version: &'static str,
    pub commit: &'static str,
    pub rustc: &'static str,
    pub target: &'static str,
}

/// The text of an optional build fact, `unknown` when it was not recorded.
pub open spec fn fact_text(f: Option<&'static str>) -> Seq<char> {
    match f {
        Some(s) => s@,
        None => "unknown"@,
    }
}

fn fact(f: Option<&'static str>) -> (r: &'static str)
    ensures
        r@ == fact_text(f),
{
    match f {
        Some(s) => s,
        None => "unknown",
    }
}

/// The version body: the package version and the recorded commit, compiler
/// and target, each `unknown` when absent.
pub fn version(
    package: &'static str,
    commit: Option<&'static str>,
    rustc: Option<&'static str>,
    target: Option<&'static str>,
) -> (r: VersionBody)
    ensures
        r.version == package,
        r.commit@ == fact_text(commit),
        r.rustc@ == fact_text(rustc),
        r.target@ == fact_text(target),
{
    VersionBody { version: package, commit: fact(commit), rustc: fact(rustc), target: fact(target) }
}

} // verus!
