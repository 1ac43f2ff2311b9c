//! A device that hands over its own configuration (the router), backed up
//! like any stack: one restic repository named after it.

use vstd::prelude::*;
use vstd::string::*;
use crate::error::CoreError;
use crate::executor::{ended_on_failure, run_ok, run_request, Cmd, Executor, Request};
use crate::ops::backup::{restic_cache_dir, BackupCfg};
use crate::ops::zfs::{quote_body, quoted_arg, shell_quote};
use crate::runner::{Journal, OperationReport, Runner, StepOutcome};
use crate::sink::{Level, Sink};
use crate::text::{string_views, dec, dec_string, is_digit, parse_uint, parse_unsigned, split_once_str, str_split_once_str};

verus! {

/// One device that can hand over its own configuration.
#[derive(Debug, Clone, PartialEq, Eq)]
pub struct DeviceBackup {
    /// Names the restic repository: `<base>/<name>-config`.
    pub name: String,
    /// Full URL of the endpoint that returns the configuration.
    pub url: String,
    /// Host-local, root-only credentials in curl's own config format, so
    /// the secret never appears in an argument list.
    pub cred_file: String,
    /// What the downloaded file is called inside the snapshot.
    pub filename: String,
    /// A public-key pin for the connection.
    pub pin: Option<String>,
    /// A CA bundle, for a device whose certificate can be verified by name.
    pub ca_file: Option<String>,
}

/// Smaller than this is not a configuration: a login page is a 200 with
/// HTML in it, and would be stored without complaint.
pub const MIN_PLAUSIBLE_BYTES: usize = 4096;

/// Whether a download is large enough to be a configuration at all.
pub fn plausible_size(bytes: usize) -> (r: bool)
    ensures
        r == (bytes >= MIN_PLAUSIBLE_BYTES),
{
    bytes >= MIN_PLAUSIBLE_BYTES
}

/// How curl is told to check the device's certificate: by the pinned key,
/// by a CA bundle, or not at all — and whether that last case needs a
/// warning in the transcript.
pub open spec fn tls_args_of(pin: Option<Seq<char>>, ca: Option<Seq<char>>) -> (Seq<char>, bool) {
    match (pin, ca) {
        (Some(p), _) => ("-k --pinnedpubkey "@ + ("'"@ + quote_body(p) + "'"@), false),
        (None, Some(c)) => ("--cacert "@ + ("'"@ + quote_body(c) + "'"@), false),
        (None, None) => ("-k"@, true),
    }
}

pub fn tls_args(dev: &DeviceBackup) -> (r: (String, bool))
    ensures
        (r.0@, r.1) == tls_args_of(
            match dev.pin {
                Some(p) => Some(p@),
                None => None,
            },
            match dev.ca_file {
                Some(c) => Some(c@),
                None => None,
            },
        ),
{
    match &dev.pin {
        Some(p) => {
            let mut s = String::from_str("-k --pinnedpubkey ");
            let q = shell_quote(p.as_str());
            s.append(q.as_str());
            (s, false)
        },
        None => match &dev.ca_file {
            Some(c) => {
                let mut s = String::from_str("--cacert ");
                let q = shell_quote(c.as_str());
                s.append(q.as_str());
                (s, false)
            },
            None => (String::from_str("-k"), true),
        },
    }
}

/// The first run of digits in `s`.
pub open spec fn first_digits(s: Seq<char>) -> Seq<char>
    decreases s.len(),
{
    if s.len() == 0 {
        Seq::empty()
    } else if !is_digit(s[0]) {
        first_digits(s.drop_first())
    } else {
        digit_run(s)
    }
}

/// The digits at the start of `s`.
pub open spec fn digit_run(s: Seq<char>) -> Seq<char>
    decreases s.len(),
{
    if s.len() > 0 && is_digit(s[0]) {
        seq![s[0]] + digit_run(s.drop_first())
    } else {
        Seq::empty()
    }
}

/// The byte count `restic stats --json` reports: the first number after
/// the first `"total_size":` (and before a second one), 0 when there is
/// none or it does not fit.
pub open spec fn stored_size_of(stats: Seq<char>) -> nat {
    match split_once_str(stats, "\"total_size\":"@) {
        Some((_, rest)) => {
            let piece = match split_once_str(rest, "\"total_size\":"@) {
                Some((a, _)) => a,
                None => rest,
            };
            match parse_unsigned(first_digits(piece), usize::MAX as nat) {
                Some(n) => n,
                None => 0,
            }
        },
        None => 0,
    }
}

fn first_digits_exec(s: &str) -> (r: String)
    ensures
        r@ == first_digits(s@),
{
    let n = s.unicode_len();
    let mut i: usize = 0;
    proof {
        assert(s@.skip(0) =~= s@);
    }
    while i < n && !(s.get_char(i) >= '0' && s.get_char(i) <= '9')
        invariant
            i <= n,
            n == s@.len(),
            first_digits(s@) == first_digits(s@.skip(i as int)),
        decreases n - i,
    {
        proof {
            assert(s@.skip(i as int).drop_first() =~= s@.skip(i + 1));
            assert(s@.skip(i as int)[0] == s@[i as int]);
        }
        i += 1;
    }
    let mut j = i;
    proof {
        if i < n {
            assert(s@.skip(i as int)[0] == s@[i as int]);
        } else {
            assert(s@.skip(i as int) =~= Seq::<char>::empty());
        }
        assert(s@.subrange(i as int, i as int) =~= Seq::<char>::empty());
        assert(s@.skip(i as int).skip(0) =~= s@.skip(i as int));
    }
    while j < n && s.get_char(j) >= '0' && s.get_char(j) <= '9'
        invariant
            i <= j <= n,
            n == s@.len(),
            digit_run(s@.skip(i as int)) == s@.subrange(i as int, j as int) + digit_run(s@.skip(j as int)),
        decreases n - j,
    {
        proof {
            assert(s@.skip(j as int)[0] == s@[j as int]);
            assert(s@.skip(j as int).drop_first() =~= s@.skip(j + 1));
            assert(s@.subrange(i as int, j + 1) =~= s@.subrange(i as int, j as int) + seq![s@[j as int]]);
        }
        j += 1;
    }
    proof {
        if j < n {
            assert(s@.skip(j as int)[0] == s@[j as int]);
        } else {
            assert(s@.skip(j as int) =~= Seq::<char>::empty());
        }
        assert(digit_run(s@.skip(j as int)) =~= Seq::<char>::empty());
        assert(s@.subrange(i as int, j as int) + Seq::<char>::empty() =~= s@.subrange(i as int, j as int));
    }
    String::from_str(s.substring_char(i, j))
}

pub fn stored_size(stats: &str) -> (r: usize)
    ensures
        r as nat == stored_size_of(stats@),
{
    match str_split_once_str(stats, "\"total_size\":") {
        Some((_, rest)) => {
            let piece = match str_split_once_str(rest, "\"total_size\":") {
                Some((a, _)) => a,
                None => rest,
            };
            let digits = first_digits_exec(piece);
            match parse_uint(digits.as_str(), usize::MAX as u64) {
                Some(n) => n as usize,
                None => 0,
            }
        },
        None => 0,
    }
}

/// What a snapshot too small to be a configuration is reported as.
pub fn implausible_error(name: &str, size: usize) -> (r: CoreError)
    ensures
        r matches CoreError::Other(m) && m@ == name@ + " stored only "@ + dec(size as nat)
            + " bytes — a login page and an error page are both a plausible 200. Check the credential's privileges before trusting this repository :: remedy: run the request by hand and look at what comes back"@,
{
    let mut m = String::from_str(name);
    m.append(" stored only ");
    let d = dec_string(size as u64);
    m.append(d.as_str());
    m.append(
        " bytes — a login page and an error page are both a plausible 200. Check the credential's privileges before trusting this repository :: remedy: run the request by hand and look at what comes back",
    );
    CoreError::Other(m)
}

/// The restic environment for a device's repository, `<base>/<name>-config`.
pub open spec fn device_env_of(base: Seq<char>, name: Seq<char>, pw: Seq<char>) -> Seq<char> {
    "env RESTIC_REPOSITORY="@ + base + "/"@ + name + "-config RESTIC_PASSWORD_FILE="@ + pw + " RESTIC_CACHE_DIR="@
        + restic_cache_dir()
}

fn device_env(cfg: &BackupCfg, name: &str) -> (r: String)
    ensures
        r@ == device_env_of(cfg.restic_base@, name@, cfg.password_file@),
{
    let mut s = String::from_str("env RESTIC_REPOSITORY=");
    s.append(cfg.restic_base.as_str());
    s.append("/");
    s.append(name);
    s.append("-config RESTIC_PASSWORD_FILE=");
    s.append(cfg.password_file.as_str());
    s.append(" RESTIC_CACHE_DIR=");
    s.append("/var/lib/homelab/restic-cache");
    proof {
        reveal_strlit("/var/lib/homelab/restic-cache");
    }
    s
}

/// What a device backup asks of the machine, in order: make sure the
/// repository exists, pipe the device's answer into it (`pipefail`, so a
/// dead download is no snapshot), and ask the repository what it stored.
pub open spec fn device_plan(dev: DeviceBackup, cfg: BackupCfg) -> Seq<Request> {
    let env = device_env_of(cfg.restic_base@, dev.name@, cfg.password_file@);
    let tls = tls_args_of(
        match dev.pin {
            Some(p) => Some(p@),
            None => None,
        },
        match dev.ca_file {
            Some(c) => Some(c@),
            None => None,
        },
    ).0;
    seq![
        Request::Run("sh"@, seq!["-c"@, env + " restic cat config >/dev/null 2>&1 || "@ + env + " restic init"@], 300),
        Request::Run(
            "sh"@,
            seq![
                "-c"@,
                "set -o pipefail; curl -sS "@ + tls + " --fail-with-body -K "@ + quoted_arg(dev.cred_file@) + " "@
                    + quoted_arg(dev.url@) + " | "@ + env + " restic backup --stdin --stdin-filename "@ + quoted_arg(
                    dev.filename@,
                )
            ],
            cfg.snapshot_timeout_s,
        ),
        Request::Run("sh"@, seq!["-c"@, env + " restic stats latest --mode raw-data --json"@], 300),
    ]
}

/// Back up a device's own configuration into its restic repository. The
/// repository exists before anything is piped into it, and the run
/// succeeds only when the repository says the snapshot holds at least
/// [`MIN_PLAUSIBLE_BYTES`] — a login page is a plausible answer too.
pub fn backup_device<E: Executor, S: Sink, J: Journal>(
    exec: &mut E,
    sink: S,
    journal: J,
    dev: &DeviceBackup,
    cfg: &BackupCfg,
) -> (r: OperationReport)
    ensures
        r.op@ == "device-backup-"@ + dev.name@,
        ({
            let q0 = old(exec).requests();
            let h0 = old(exec).replies().len() as int;
            let n = final(exec).requests().len() - q0.len();
            &&& 1 <= n <= 3
            &&& final(exec).requests() == q0 + device_plan(*dev, *cfg).take(n)
            &&& n >= 2 ==> (final(exec).replies()[h0] matches Some(o) && o.code == 0)
            &&& r.ok ==> n == 3 && (final(exec).replies()[h0 + 2] matches Some(o) && stored_size_of(o.stdout)
                >= MIN_PLAUSIBLE_BYTES)
            &&& n < 3 ==> !r.ok && ended_on_failure(final(exec).requests(), final(exec).replies())
            &&& n == 3 ==> (r.ok <==> (final(exec).replies()[h0 + 2] matches Some(o) && stored_size_of(o.stdout)
                >= MIN_PLAUSIBLE_BYTES))
        }),
{
    let ghost q0 = exec.requests();
    let ghost h0 = exec.replies();
    let ghost plan = device_plan(*dev, *cfg);
    let mut op = String::from_str("device-backup-");
    op.append(dev.name.as_str());
    let mut runner = Runner::new(op.as_str(), sink, journal);
    let mut line = String::from_str("[device] asking ");
    line.append(dev.name.as_str());
    line.append(" for its configuration");
    runner.log(Level::Info, line);
    let (verify, unverified) = tls_args(dev);
    if unverified {
        let mut w = String::from_str("[device] ");
        w.append(dev.name.as_str());
        w.append(
            ": the certificate is NOT verified — a credential that can read the whole configuration crosses the wire on trust alone. Set ca_file to end that.",
        );
        runner.log(Level::Warn, w);
    }
    let env = device_env(cfg, dev.name.as_str());

    // The repository has to exist before anything is piped into it.
    runner.begin_step("init repo");
    let mut init = String::from_str(env.as_str());
    init.append(" restic cat config >/dev/null 2>&1 || ");
    init.append(env.as_str());
    init.append(" restic init");
    let c = Cmd::new("sh", &["-c", init.as_str()], 300);
    proof {
        assert(string_views(c.args@) =~= seq!["-c"@, init@]);
        assert(run_request(c) == plan[0]);
    }
    let res = run_ok(exec, &c);
    proof {
        assert(exec.requests() =~= q0 + plan.take(1));
    }
    match res {
        Ok(_) => runner.step_done("init repo", StepOutcome::Changed),
        Err(e) => {
            let e2 = runner.step_failed("init repo", e);
            return runner.finish_err("init repo", &e2).0;
        },
    };
    let ghost h1 = exec.replies();

    // pipefail: a dead download must not become an empty snapshot.
    runner.begin_step("fetch and store");
    let mut fetch = String::from_str("set -o pipefail; curl -sS ");
    fetch.append(verify.as_str());
    fetch.append(" --fail-with-body -K ");
    let cred = shell_quote(dev.cred_file.as_str());
    fetch.append(cred.as_str());
    fetch.append(" ");
    let url = shell_quote(dev.url.as_str());
    fetch.append(url.as_str());
    fetch.append(" | ");
    fetch.append(env.as_str());
    fetch.append(" restic backup --stdin --stdin-filename ");
    let fname = shell_quote(dev.filename.as_str());
    fetch.append(fname.as_str());
    let c = Cmd::new("sh", &["-c", fetch.as_str()], cfg.snapshot_timeout_s);
    proof {
        assert(string_views(c.args@) =~= seq!["-c"@, fetch@]);
        assert(run_request(c) == plan[1]);
    }
    let res = run_ok(exec, &c);
    proof {
        assert(exec.requests() =~= q0 + plan.take(2));
        assert(exec.replies()[h0.len() as int] == h1[h0.len() as int]);
    }
    match res {
        Ok(_) => runner.step_done("fetch and store", StepOutcome::Changed),
        Err(e) => {
            let e2 = runner.step_failed("fetch and store", e);
            return runner.finish_err("fetch and store", &e2).0;
        },
    };
    let ghost h2 = exec.replies();

    // Ask the repository rather than trusting the exit code.
    runner.begin_step("verify the snapshot has substance");
    let mut stats = String::from_str(env.as_str());
    stats.append(" restic stats latest --mode raw-data --json");
    let c = Cmd::new("sh", &["-c", stats.as_str()], 300);
    proof {
        assert(string_views(c.args@) =~= seq!["-c"@, stats@]);
        assert(run_request(c) == plan[2]);
    }
    let out = exec.run(&c);
    proof {
        assert(exec.requests() =~= q0 + plan.take(3));
        assert(exec.replies()[h0.len() as int] == h2[h0.len() as int]);
    }
    let out = match out {
        Ok(o) => o,
        Err(e) => {
            let e2 = runner.step_failed("verify the snapshot has substance", e);
            return runner.finish_err("verify the snapshot has substance", &e2).0;
        },
    };
    let size = stored_size(out.stdout.as_str());
    if !plausible_size(size) {
        let e2 = runner.step_failed("verify the snapshot has substance", implausible_error(dev.name.as_str(), size));
        return runner.finish_err("verify the snapshot has substance", &e2).0;
    }
    runner.step_done("verify the snapshot has substance", StepOutcome::Unchanged);
    runner.finish_ok().0
}

} // verus!
