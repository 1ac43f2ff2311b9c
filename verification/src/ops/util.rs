//! Putting a file into a container: only when its content differs, staged
//! on the host and pushed with `pct push`, so a container never holds half
//! a file.

use vstd::prelude::*;
use vstd::string::*;
use vstd::utf8::encode_utf8;
use crate::digest::{hex, hex_prefix, sha256, sha256_digest, sha256_hex};
use crate::error::CoreError;
use crate::executor::{
    ended_on_failure,
    extends, lemma_extends_refl, lemma_extends_trans, lemma_one_more, pct_sh, pct_sh_args, run_ok, run_request, Cmd,
    Executor, Request,
};
use crate::text::{dec, dec_string, str_eq, string_views, trim, trimmed};

verus! {

/// Where a push stages its file on the host: one path per container and
/// destination, named by the first eight bytes of the destination's hash.
pub open spec fn staging_path_of(vmid: u16, dest: Seq<char>) -> Seq<char> {
    "/var/lib/homelab/push-staging-"@ + dec(vmid as nat) + "-"@ + hex(sha256(encode_utf8(dest)).take(8))
}

pub fn staging_path(vmid: u16, dest: &str) -> (r: String)
    ensures
        r@ == staging_path_of(vmid, dest@),
{
    let d = sha256_digest(dest.as_bytes());
    let h = hex_prefix(d.as_slice(), 8);
    let mut s = String::from_str("/var/lib/homelab/push-staging-");
    let v = dec_string(vmid as u64);
    s.append(v.as_str());
    s.append("-");
    s.append(h.as_str());
    s
}

/// The script that prints the destination's current hash (nothing when it
/// does not exist).
pub open spec fn hash_probe_of(dest: Seq<char>) -> Seq<char> {
    "sha256sum '"@ + dest + "' 2>/dev/null | cut -d' ' -f1 || true"@
}

pub fn hash_probe(dest: &str) -> (r: String)
    ensures
        r@ == hash_probe_of(dest@),
{
    let mut s = String::from_str("sha256sum '");
    s.append(dest);
    s.append("' 2>/dev/null | cut -d' ' -f1 || true");
    s
}

/// The container already has exactly this content: the hash it printed is
/// the content's.
pub open spec fn already_there(remote: Seq<char>, content: Seq<char>) -> bool {
    trimmed(remote) == hex(sha256(encode_utf8(content)))
}

pub fn unchanged_on_target(remote: &str, content: &str) -> (r: bool)
    ensures
        r == already_there(remote@, content@),
{
    let local = sha256_hex(content.as_bytes());
    str_eq(trim(remote), local.as_str())
}

/// The directory a path is in, as `std::path::Path::parent` gives it.
pub uninterp spec fn path_parent(p: Seq<char>) -> Option<Seq<char>>;

/// `std::path::Path::parent`, as text: the path without its final
/// component; `None` for a path that ends in a root or is empty. The
/// result is a function of the path alone; what it is for given paths is
/// not stated here.
#[verifier::external_body]
pub(crate) fn parent_dir(p: &str) -> (r: Option<String>)
    ensures
        match r {
            Some(d) => path_parent(p@) == Some(d@),
            None => path_parent(p@) is None,
        },
{
    match std::path::Path::new(p).parent() {
        Some(d) => Some(d.to_string_lossy().into_owned()),
        None => None,
    }
}

/// Push `content` to `dest` in container `vmid` through `staging`. `Ok(false)`
/// when the container already had exactly this content — then nothing
/// but the hash probe ran; `Ok(true)` when it was written.
pub fn push_content_staged<E: Executor>(
    exec: &mut E,
    vmid: u16,
    dest: &str,
    content: &str,
    perms: &str,
    staging: &str,
) -> (r: Result<bool, CoreError>)
    ensures
        final(exec).requests().len() > old(exec).requests().len(),
        final(exec).requests().take(old(exec).requests().len() + 1int) == old(exec).requests().push(
            Request::Run("pct"@, pct_sh_args(vmid, hash_probe_of(dest@)), 30),
        ),
        r == Ok::<bool, CoreError>(false) ==> final(exec).requests() == old(exec).requests().push(
            Request::Run("pct"@, pct_sh_args(vmid, hash_probe_of(dest@)), 30),
        ),
        r == Ok::<bool, CoreError>(true) ==> pushed_through(final(exec).requests(), vmid, dest@, content@, perms@, staging@),
        forall|i: int|
            old(exec).requests().len() <= i < final(exec).requests().len() ==> push_step(
                vmid,
                dest@,
                content@,
                perms@,
                staging@,
                #[trigger] final(exec).requests()[i],
            ),
        extends(old(exec).requests(), old(exec).replies(), final(exec).requests(), final(exec).replies()),
        r is Err ==> ended_on_failure(final(exec).requests(), final(exec).replies()),
{
    let ghost start = exec.requests();
    let ghost sh0 = exec.replies();
    let probe = hash_probe(dest);
    let remote = pct_sh(exec, vmid, probe.as_str(), 30);
    proof {
        lemma_one_more(start, sh0, exec.requests(), exec.replies());
    }
    let remote = remote?;
    if unchanged_on_target(remote.stdout.as_str(), content) {
        return Ok(false);
    }
    let ghost after_probe = exec.requests();
    let vm = dec_string(vmid as u64);
    match parent_dir(dest) {
        Some(parent) => {
            let mk = Cmd::new("pct", &["exec", vm.as_str(), "--", "mkdir", "-p", parent.as_str()], 30);
            proof {
                assert(string_views(mk.args@) =~= seq!["exec"@, dec(vmid as nat), "--"@, "mkdir"@, "-p"@, parent@]);
            }
            let ghost before_mk = exec.requests();
            let ghost hm = exec.replies();
            let made = run_ok(exec, &mk);
            proof {
                lemma_one_more(before_mk, hm, exec.requests(), exec.replies());
                lemma_extends_trans(start, sh0, before_mk, hm, exec.requests(), exec.replies());
                let q = exec.requests();
                assert forall|i: int| start.len() <= i < q.len() implies push_step(
                    vmid, dest@, content@, perms@, staging@, #[trigger] q[i]) by {
                    if i == q.len() - 1 {
                        assert(q[i] == run_request(mk));
                        assert(path_parent(dest@) == Some(parent@));
                    } else {
                        assert(q[i] == before_mk[i]);
                    }
                }
            }
            made?;
        },
        None => {},
    }
    let ghost before_write = exec.requests();
    proof {
        assert(before_write.take(start.len() + 1int) =~= after_probe);
    }
    let ghost hw = exec.replies();
    let w = exec.write_file(staging, content, 0o600);
    proof {
        lemma_one_more(before_write, hw, exec.requests(), exec.replies());
        lemma_extends_trans(start, sh0, before_write, hw, exec.requests(), exec.replies());
        let q = exec.requests();
        assert forall|i: int| start.len() <= i < q.len() implies push_step(
            vmid, dest@, content@, perms@, staging@, #[trigger] q[i]) by {
            if i < q.len() - 1 {
                assert(q[i] == before_write[i]);
            }
        }
    }
    w?;
    let push = Cmd::new("pct", &["push", vm.as_str(), staging, dest, "--perms", perms], 60);
    proof {
        assert(string_views(push.args@) =~= seq!["push"@, dec(vmid as nat), staging@, dest@, "--perms"@, perms@]);
    }
    let ghost before_push = exec.requests();
    let ghost hp = exec.replies();
    let pushed = run_ok(exec, &push);
    proof {
        lemma_one_more(before_push, hp, exec.requests(), exec.replies());
        lemma_extends_trans(start, sh0, before_push, hp, exec.requests(), exec.replies());
    }
    pushed?;
    let rm = Cmd::new("rm", &["-f", staging], 30);
    proof {
        assert(string_views(rm.args@) =~= seq!["-f"@, staging@]);
    }
    let ghost before_rm = exec.requests();
    let ghost hr = exec.replies();
    let _ = exec.run(&rm);
    proof {
        lemma_one_more(before_rm, hr, exec.requests(), exec.replies());
        lemma_extends_trans(start, sh0, before_rm, hr, exec.requests(), exec.replies());
        let q = exec.requests();
        assert(q.take(start.len() + 1int) =~= before_write.take(start.len() + 1int));
        assert(q[q.len() - 3] == before_push.last());
        assert(q[q.len() - 2] == before_rm.last());
    }
    Ok(true)
}

/// The requests end with the staged file written, pushed into the
/// container and removed from the host.
pub open spec fn pushed_through(
    q: Seq<Request>,
    vmid: u16,
    dest: Seq<char>,
    content: Seq<char>,
    perms: Seq<char>,
    staging: Seq<char>,
) -> bool {
    &&& q.len() >= 3
    &&& q[q.len() - 3] == Request::WriteFile(staging, content, 0o600)
    &&& q[q.len() - 2] == Request::Run(
        "pct"@,
        seq!["push"@, dec(vmid as nat), staging, dest, "--perms"@, perms],
        60,
    )
    &&& q[q.len() - 1] == Request::Run("rm"@, seq!["-f"@, staging], 30)
}

/// One of the requests a push of `content` to `dest` makes: the hash
/// probe, creating the destination's directory, staging the file on the
/// host, pushing it in, and removing the staged copy.
pub open spec fn push_step(
    vmid: u16,
    dest: Seq<char>,
    content: Seq<char>,
    perms: Seq<char>,
    staging: Seq<char>,
    r: Request,
) -> bool {
    ||| r == Request::Run("pct"@, pct_sh_args(vmid, hash_probe_of(dest)), 30)
    ||| (exists|p: Seq<char>|
        path_parent(dest) == Some(p) && r == Request::Run(
            "pct"@,
            seq!["exec"@, dec(vmid as nat), "--"@, "mkdir"@, "-p"@, p],
            30,
        ))
    ||| r == Request::WriteFile(staging, content, 0o600)
    ||| r == Request::Run("pct"@, seq!["push"@, dec(vmid as nat), staging, dest, "--perms"@, perms], 60)
    ||| r == Request::Run("rm"@, seq!["-f"@, staging], 30)
}

/// Push `content` to `dest`, staged at the destination's own staging path.
pub fn push_content<E: Executor>(exec: &mut E, vmid: u16, dest: &str, content: &str, perms: &str) -> (r: Result<bool, CoreError>)
    ensures
        final(exec).requests().len() > old(exec).requests().len(),
        final(exec).requests().take(old(exec).requests().len() + 1int) == old(exec).requests().push(
            Request::Run("pct"@, pct_sh_args(vmid, hash_probe_of(dest@)), 30),
        ),
        r == Ok::<bool, CoreError>(false) ==> final(exec).requests() == old(exec).requests().push(
            Request::Run("pct"@, pct_sh_args(vmid, hash_probe_of(dest@)), 30),
        ),
        r == Ok::<bool, CoreError>(true) ==> pushed_through(
            final(exec).requests(),
            vmid,
            dest@,
            content@,
            perms@,
            staging_path_of(vmid, dest@),
        ),
        forall|i: int|
            old(exec).requests().len() <= i < final(exec).requests().len() ==> push_step(
                vmid,
                dest@,
                content@,
                perms@,
                staging_path_of(vmid, dest@),
                #[trigger] final(exec).requests()[i],
            ),
        extends(old(exec).requests(), old(exec).replies(), final(exec).requests(), final(exec).replies()),
        r is Err ==> ended_on_failure(final(exec).requests(), final(exec).replies()),
{
    let staging = staging_path(vmid, dest);
    push_content_staged(exec, vmid, dest, content, perms, staging.as_str())
}

/// Write a host file and give it the owner of its directory, so a file an
/// application reads stays readable by it. A failed `chown` is ignored:
/// the file was written.
pub fn write_file_owned_like_dir<E: Executor>(exec: &mut E, dest: &str, body: &str, mode: u32) -> (r: Result<(), CoreError>)
    ensures
        r is Err ==> final(exec).requests() == old(exec).requests().push(Request::WriteFile(dest@, body@, mode)),
        r is Ok ==> final(exec).requests() == old(exec).requests().push(Request::WriteFile(dest@, body@, mode)).push(
            Request::Run(
                "chown"@,
                seq![
                    "--reference"@,
                    match path_parent(dest@) {
                        Some(d) => d,
                        None => "/"@,
                    },
                    dest@
                ],
                30,
            ),
        ),
{
    exec.write_file(dest, body, mode)?;
    let dir = match parent_dir(dest) {
        Some(d) => d,
        None => String::from_str("/"),
    };
    let c = Cmd::new("chown", &["--reference", dir.as_str(), dest], 30);
    proof {
        assert(string_views(c.args@) =~= seq![
            "--reference"@,
            match path_parent(dest@) {
                Some(d) => d,
                None => "/"@,
            },
            dest@
        ]);
    }
    let _ = exec.run(&c);
    Ok(())
}

} // verus!
