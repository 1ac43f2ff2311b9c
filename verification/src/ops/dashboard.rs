//! A stack brings its own Grafana dashboard, rendered from the manifest at
//! deploy time and written where Grafana's provisioning picks it up. The
//! panels are the ones that mean the same for every stack: CPU, memory,
//! restarts and disk, plus the stack's error lines.

use vstd::prelude::*;
use vstd::string::*;
use crate::text::{join_strings, joined, starts_with, str_trim_end_char, string_views, trim_end_char};

verus! {

/// `"` escaped as `\"`, so an expression can stand inside a JSON string.
pub open spec fn escape_quotes(s: Seq<char>) -> Seq<char>
    decreases s.len(),
{
    if s.len() == 0 {
        Seq::empty()
    } else {
        escape_quotes(s.drop_last()) + if s.last() == '"' {
            "\\\""@
        } else {
            seq![s.last()]
        }
    }
}

pub fn escape(s: &str) -> (r: String)
    ensures
        r@ == escape_quotes(s@),
{
    let n = s.unicode_len();
    let mut out = String::new();
    let mut i: usize = 0;
    while i < n
        invariant
            i <= n,
            n == s@.len(),
            out@ == escape_quotes(s@.take(i as int)),
        decreases n - i,
    {
        proof {
            assert(s@.take(i + 1).drop_last() =~= s@.take(i as int));
        }
        let c = s.get_char(i);
        if c == '"' {
            out.append("\\\"");
        } else {
            let one = s.substring_char(i, i + 1);
            proof {
                assert(one@ =~= seq![c]);
            }
            out.append(one);
        }
        i += 1;
    }
    proof {
        assert(s@.take(n as int) =~= s@);
    }
    out
}

/// One time-series panel of the metrics row.
pub open spec fn ts_panel(id: Seq<char>, title: Seq<char>, expr: Seq<char>, x: Seq<char>, y: Seq<char>) -> Seq<char> {
    "    {\n      \"id\": "@ + id + ",\n      \"type\": \"timeseries\",\n      \"title\": \""@ + title
        + "\",\n      \"datasource\": {\"type\": \"prometheus\", \"uid\": \"prometheus\"},\n      \"gridPos\": {\"h\": 8, \"w\": 12, \"x\": "@
        + x + ", \"y\": "@ + y + "},\n      \"targets\": [{\"expr\": \""@ + escape_quotes(expr)
        + "\", \"refId\": \"A\"}]\n    }"@
}

pub open spec fn cpu_expr(s: Seq<char>) -> Seq<char> {
    "rate(container_cpu_usage_seconds_total{stack=\""@ + s + "\"}[5m])"@
}

pub open spec fn mem_expr(s: Seq<char>) -> Seq<char> {
    "container_memory_usage_bytes{stack=\""@ + s + "\"}"@
}

pub open spec fn restart_expr(s: Seq<char>) -> Seq<char> {
    "changes(container_start_time_seconds{stack=\""@ + s + "\"}[1h])"@
}

pub open spec fn fs_expr(s: Seq<char>) -> Seq<char> {
    "100 - (node_filesystem_avail_bytes{stack=\""@ + s
        + "\",mountpoint=\"/\"} / node_filesystem_size_bytes{stack=\""@ + s
        + "\",mountpoint=\"/\"} * 100)"@
}

/// Error lines of the stack, leaving out Loki's own query log (which
/// contains the word "error" and would count its own search).
pub open spec fn err_expr(s: Seq<char>) -> Seq<char> {
    "{stack=\""@ + s + "\"} |~ \"(?i)(error|exception|fatal|panic)\" != \"level=info\""@
}

pub open spec fn loki_panels(e: Seq<char>) -> Seq<char> {
    ",\n    {\n      \"id\": 5,\n      \"type\": \"stat\",\n      \"title\": \"Errors in range\",\n      \"datasource\": {\"type\": \"loki\", \"uid\": \"loki\"},\n      \"gridPos\": {\"h\": 5, \"w\": 6, \"x\": 0, \"y\": 16},\n      \"options\": {\"reduceOptions\": {\"calcs\": [\"lastNotNull\"]}, \"colorMode\": \"value\", \"graphMode\": \"none\"},\n      \"targets\": [{\"expr\": \"sum(count_over_time("@
        + e
        + " [$__range]))\", \"queryType\": \"instant\", \"refId\": \"A\"}]\n    },\n    {\n      \"id\": 6,\n      \"type\": \"bargauge\",\n      \"title\": \"Errors by container\",\n      \"description\": \"One container producing thousands while the rest produce single digits is the normal shape here, and the useful one: it says where to look first.\",\n      \"datasource\": {\"type\": \"loki\", \"uid\": \"loki\"},\n      \"gridPos\": {\"h\": 5, \"w\": 18, \"x\": 6, \"y\": 16},\n      \"options\": {\"displayMode\": \"gradient\", \"orientation\": \"horizontal\", \"reduceOptions\": {\"calcs\": [\"lastNotNull\"]}},\n      \"targets\": [{\"expr\": \"topk(10, sum by (container_name) (count_over_time("@
        + e
        + " [$__range])))\", \"queryType\": \"instant\", \"refId\": \"A\"}]\n    },\n    {\n      \"id\": 7,\n      \"type\": \"logs\",\n      \"title\": \"Error lines\",\n      \"datasource\": {\"type\": \"loki\", \"uid\": \"loki\"},\n      \"gridPos\": {\"h\": 12, \"w\": 24, \"x\": 0, \"y\": 21},\n      \"options\": {\"showTime\": true, \"showLabels\": true, \"sortOrder\": \"Descending\", \"wrapLogMessage\": true, \"dedupStrategy\": \"none\"},\n      \"targets\": [{\"expr\": \""@
        + e + "\", \"refId\": \"A\"}]\n    }"@
}

/// One dashboard per stack. Byte-stable for the same input: a deploy that
/// changes nothing must write nothing.
pub open spec fn dashboard(stack: Seq<char>, apps: Seq<Seq<char>>) -> Seq<char> {
    let panels = ts_panel("1"@, "CPU per container"@, cpu_expr(stack), "0"@, "0"@) + ",\n"@
        + ts_panel("2"@, "Memory per container"@, mem_expr(stack), "12"@, "0"@) + ",\n"@
        + ts_panel("3"@, "Restarts per container"@, restart_expr(stack), "0"@, "8"@) + ",\n"@
        + ts_panel("4"@, "Filesystem used"@, fs_expr(stack), "12"@, "8"@)
        + loki_panels(escape_quotes(err_expr(stack)));
    "{\n  \"uid\": \"homelab-"@ + stack + "\",\n  \"title\": \""@ + stack
        + "\",\n  \"tags\": [\"homelab\", \"generated\"],\n  \"timezone\": \"browser\",\n  \"schemaVersion\": 39,\n  \"refresh\": \"1m\",\n  \"time\": {\"from\": \"now-6h\", \"to\": \"now\"},\n  \"description\": \"Generated by the homelab orchestrator for stack '"@
        + stack + "' ("@ + joined(apps, ", "@)
        + "). Edits here are overwritten on the next deploy — change the generator, not the dashboard.\",\n  \"panels\": [\n"@
        + panels + "\n  ]\n}\n"@
}

fn panel(id: &str, title: &str, expr: &str, x: &str, y: &str) -> (r: String)
    ensures
        r@ == ts_panel(id@, title@, expr@, x@, y@),
{
    let mut s = String::from_str("    {\n      \"id\": ");
    s.append(id);
    s.append(",\n      \"type\": \"timeseries\",\n      \"title\": \"");
    s.append(title);
    s.append("\",\n      \"datasource\": {\"type\": \"prometheus\", \"uid\": \"prometheus\"},\n      \"gridPos\": {\"h\": 8, \"w\": 12, \"x\": ");
    s.append(x);
    s.append(", \"y\": ");
    s.append(y);
    s.append("},\n      \"targets\": [{\"expr\": \"");
    let e = escape(expr);
    s.append(e.as_str());
    s.append("\", \"refId\": \"A\"}]\n    }");
    s
}

fn wrap(pre: &str, s: &str, post: &str) -> (r: String)
    ensures
        r@ == pre@ + s@ + post@,
{
    let mut r = String::from_str(pre);
    r.append(s);
    r.append(post);
    r
}

fn loki(e: &str) -> (r: String)
    ensures
        r@ == loki_panels(e@),
{
    let mut s = String::from_str(",\n    {\n      \"id\": 5,\n      \"type\": \"stat\",\n      \"title\": \"Errors in range\",\n      \"datasource\": {\"type\": \"loki\", \"uid\": \"loki\"},\n      \"gridPos\": {\"h\": 5, \"w\": 6, \"x\": 0, \"y\": 16},\n      \"options\": {\"reduceOptions\": {\"calcs\": [\"lastNotNull\"]}, \"colorMode\": \"value\", \"graphMode\": \"none\"},\n      \"targets\": [{\"expr\": \"sum(count_over_time(");
    s.append(e);
    s.append(" [$__range]))\", \"queryType\": \"instant\", \"refId\": \"A\"}]\n    },\n    {\n      \"id\": 6,\n      \"type\": \"bargauge\",\n      \"title\": \"Errors by container\",\n      \"description\": \"One container producing thousands while the rest produce single digits is the normal shape here, and the useful one: it says where to look first.\",\n      \"datasource\": {\"type\": \"loki\", \"uid\": \"loki\"},\n      \"gridPos\": {\"h\": 5, \"w\": 18, \"x\": 6, \"y\": 16},\n      \"options\": {\"displayMode\": \"gradient\", \"orientation\": \"horizontal\", \"reduceOptions\": {\"calcs\": [\"lastNotNull\"]}},\n      \"targets\": [{\"expr\": \"topk(10, sum by (container_name) (count_over_time(");
    s.append(e);
    s.append(" [$__range])))\", \"queryType\": \"instant\", \"refId\": \"A\"}]\n    },\n    {\n      \"id\": 7,\n      \"type\": \"logs\",\n      \"title\": \"Error lines\",\n      \"datasource\": {\"type\": \"loki\", \"uid\": \"loki\"},\n      \"gridPos\": {\"h\": 12, \"w\": 24, \"x\": 0, \"y\": 21},\n      \"options\": {\"showTime\": true, \"showLabels\": true, \"sortOrder\": \"Descending\", \"wrapLogMessage\": true, \"dedupStrategy\": \"none\"},\n      \"targets\": [{\"expr\": \"");
    s.append(e);
    s.append("\", \"refId\": \"A\"}]\n    }");
    s
}

pub fn dashboard_json(stack: &str, apps: &[String]) -> (r: String)
    ensures
        r@ == dashboard(stack@, string_views(apps@)),
{
    let cpu = wrap("rate(container_cpu_usage_seconds_total{stack=\"", stack, "\"}[5m])");
    let mem = wrap("container_memory_usage_bytes{stack=\"", stack, "\"}");
    let rst = wrap("changes(container_start_time_seconds{stack=\"", stack, "\"}[1h])");
    let mut fs = String::from_str("100 - (node_filesystem_avail_bytes{stack=\"");
    fs.append(stack);
    fs.append("\",mountpoint=\"/\"} / node_filesystem_size_bytes{stack=\"");
    fs.append(stack);
    fs.append("\",mountpoint=\"/\"} * 100)");
    let mut panels = panel("1", "CPU per container", cpu.as_str(), "0", "0");
    panels.append(",\n");
    let p = panel("2", "Memory per container", mem.as_str(), "12", "0");
    panels.append(p.as_str());
    panels.append(",\n");
    let p = panel("3", "Restarts per container", rst.as_str(), "0", "8");
    panels.append(p.as_str());
    panels.append(",\n");
    let p = panel("4", "Filesystem used", fs.as_str(), "12", "8");
    panels.append(p.as_str());
    let err = wrap("{stack=\"", stack, "\"} |~ \"(?i)(error|exception|fatal|panic)\" != \"level=info\"");
    let e = escape(err.as_str());
    let l = loki(e.as_str());
    panels.append(l.as_str());
    let mut s = String::from_str("{\n  \"uid\": \"homelab-");
    s.append(stack);
    s.append("\",\n  \"title\": \"");
    s.append(stack);
    s.append("\",\n  \"tags\": [\"homelab\", \"generated\"],\n  \"timezone\": \"browser\",\n  \"schemaVersion\": 39,\n  \"refresh\": \"1m\",\n  \"time\": {\"from\": \"now-6h\", \"to\": \"now\"},\n  \"description\": \"Generated by the homelab orchestrator for stack '");
    s.append(stack);
    s.append("' (");
    let a = join_strings(apps, ", ");
    s.append(a.as_str());
    s.append("). Edits here are overwritten on the next deploy — change the generator, not the dashboard.\",\n  \"panels\": [\n");
    s.append(panels.as_str());
    s.append("\n  ]\n}\n");
    proof {
        reveal_strlit("1");
        reveal_strlit("2");
        reveal_strlit("3");
        reveal_strlit("4");
        reveal_strlit("0");
        reveal_strlit("12");
        reveal_strlit("8");
    }
    s
}

/// Where the dashboard lands in Grafana's provisioning directory.
pub fn dashboard_file(dir: &str, stack: &str) -> (r: String)
    ensures
        r@ == trim_end_char(dir@, '/') + "/homelab-"@ + stack@ + ".json"@,
{
    let mut s = String::from_str(str_trim_end_char(dir, '/'));
    s.append("/homelab-");
    s.append(stack);
    s.append(".json");
    s
}

} // verus!

verus! {

/// The dashboard is named after its stack: it opens with the uid
/// `homelab-<stack>` and the title `<stack>`, so a later deploy of the same
/// stack overwrites it rather than adding another.
pub proof fn law_dashboard_names_its_stack(stack: Seq<char>, apps: Seq<Seq<char>>)
    ensures
        starts_with(dashboard(stack, apps), "{\n  \"uid\": \"homelab-"@ + stack + "\",\n  \"title\": \""@ + stack),
{
    let p = "{\n  \"uid\": \"homelab-"@ + stack + "\",\n  \"title\": \""@ + stack;
    let d = dashboard(stack, apps);
    assert(d.take(p.len() as int) =~= p);
}

} // verus!
