//! Prometheus learns about a stack from a file the orchestrator writes: one
//! small file per stack on deploy, removed on destroy, picked up through
//! file-based discovery without a reload.
//!
//! What is written is only what the golden template guarantees on every
//! container: node_exporter and cadvisor.

use vstd::prelude::*;
use vstd::string::*;
use crate::text::{before_first, str_before_first, str_trim_end_char, trim_end_char};

verus! {

/// The host part of a manifest address (`10.10.10.13/24` → `10.10.10.13`).
pub open spec fn host_of(ip: Seq<char>) -> Seq<char> {
    before_first(ip, '/')
}

pub fn ip_only(ip: &str) -> (r: &str)
    ensures
        r@ == host_of(ip@),
{
    str_before_first(ip, '/')
}

/// One target entry of the discovery document.
pub open spec fn target_entry(host: Seq<char>, port: Seq<char>, job: Seq<char>, stack: Seq<char>) -> Seq<char> {
    "  {\n    \"targets\": [\""@ + host + ":"@ + port + "\"],\n    \"labels\": {\"job\": \""@ + job
        + "\", \"stack\": \""@ + stack + "\", \"host\": \""@ + stack + "\", \"role\": \"lxc\"}\n  }"@
}

/// The discovery document for one stack, in a stable field order so a
/// rewrite that changes nothing is byte-identical. A stack without docker
/// has no cadvisor, and gets no target for one (an endpoint that never
/// answers is an alert that never stops).
pub open spec fn targets_doc(stack: Seq<char>, ip: Seq<char>, runs_docker: bool) -> Seq<char> {
    let node = target_entry(host_of(ip), "9100"@, "node"@, stack);
    if !runs_docker {
        "[\n"@ + node + "\n]\n"@
    } else {
        "[\n"@ + node + ",\n"@ + target_entry(host_of(ip), "8081"@, "cadvisor"@, stack) + "\n]\n"@
    }
}

fn entry(host: &str, port: &str, job: &str, stack: &str) -> (r: String)
    ensures
        r@ == target_entry(host@, port@, job@, stack@),
{
    let mut s = String::from_str("  {\n    \"targets\": [\"");
    s.append(host);
    s.append(":");
    s.append(port);
    s.append("\"],\n    \"labels\": {\"job\": \"");
    s.append(job);
    s.append("\", \"stack\": \"");
    s.append(stack);
    s.append("\", \"host\": \"");
    s.append(stack);
    s.append("\", \"role\": \"lxc\"}\n  }");
    s
}

pub fn targets_json(stack: &str, ip: &str, runs_docker: bool) -> (r: String)
    ensures
        r@ == targets_doc(stack@, ip@, runs_docker),
{
    let host = ip_only(ip);
    let node = entry(host, "9100", "node", stack);
    let mut s = String::from_str("[\n");
    s.append(node.as_str());
    if !runs_docker {
        s.append("\n]\n");
        return s;
    }
    s.append(",\n");
    let cad = entry(host, "8081", "cadvisor", stack);
    s.append(cad.as_str());
    s.append("\n]\n");
    s
}

/// Where this stack's discovery file lives under the configured directory.
pub fn target_file(dir: &str, stack: &str) -> (r: String)
    ensures
        r@ == trim_end_char(dir@, '/') + "/"@ + stack@ + ".json"@,
{
    let mut s = String::from_str(str_trim_end_char(dir, '/'));
    s.append("/");
    s.append(stack);
    s.append(".json");
    s
}

} // verus!
