//! Pushing the intent repository to its off-host mirror.

use vstd::prelude::*;
use vstd::string::*;
use crate::error::CoreError;
use crate::executor::{ended_on_failure, Cmd, CmdOutput, Executor, Request};
use crate::text::{string_views, trim, trimmed};

verus! {

/// The error a failed git step is reported as: what was attempted and what
/// git said.
pub fn git_failed(what: &str, out: &CmdOutput) -> (r: CoreError)
    ensures
        r matches CoreError::Other(m) && m@ == what@ + ": "@ + trimmed(out.stderr@),
{
    let mut m = String::from_str(what);
    m.append(": ");
    m.append(trim(out.stderr.as_str()));
    CoreError::Other(m)
}

/// Push every branch of the repository at `repo_dir` to the `mirror`
/// remote, adding the remote first when the repository has none. A failed
/// step stops the push and says which.
pub fn mirror_push<E: Executor>(exec: &mut E, repo_dir: &str, remote: &str) -> (r: Result<(), CoreError>)
    ensures
        final(exec).requests().len() > old(exec).requests().len(),
        final(exec).requests().len() <= old(exec).requests().len() + 3,
        final(exec).requests()[old(exec).requests().len() as int] == git_request(repo_dir@, seq!["remote"@, "get-url"@, "mirror"@], 30),
        forall|i: int| 0 <= i < old(exec).requests().len() ==> final(exec).requests()[i] == old(exec).requests()[i],
        r is Ok ==> final(exec).requests().last() == git_request(repo_dir@, seq!["push"@, "--quiet"@, "mirror"@, "--all"@], 300),
        r is Ok ==> (final(exec).replies().last() matches Some(o) && o.code == 0),
        r is Err ==> ended_on_failure(final(exec).requests(), final(exec).replies()),
{
    let ghost start = exec.requests();
    let c1 = Cmd::new("git", &["-C", repo_dir, "remote", "get-url", "mirror"], 30);
    proof {
        assert(string_views(c1.args@) =~= seq!["-C"@, repo_dir@] + seq!["remote"@, "get-url"@, "mirror"@]);
    }
    let known = exec.run(&c1)?;
    let ghost after1 = exec.requests();
    if !known.success() {
        let add = exec.run(&Cmd::new("git", &["-C", repo_dir, "remote", "add", "mirror", remote], 30))?;
        if !add.success() {
            proof {
                assert(exec.requests()[start.len() as int] == after1[start.len() as int]);
            }
            return Err(git_failed("git remote add", &add));
        }
    }
    let ghost before_push = exec.requests();
    proof {
        assert(before_push[start.len() as int] == after1[start.len() as int]);
    }
    let c3 = Cmd::new("git", &["-C", repo_dir, "push", "--quiet", "mirror", "--all"], 300);
    proof {
        assert(string_views(c3.args@) =~= seq!["-C"@, repo_dir@] + seq!["push"@, "--quiet"@, "mirror"@, "--all"@]);
    }
    let push = exec.run(&c3)?;
    if !push.success() {
        return Err(git_failed("git push mirror", &push));
    }
    Ok(())
}

/// A `git -C <repo> ...` command as a request.
pub open spec fn git_request(repo: Seq<char>, rest: Seq<Seq<char>>, timeout: u64) -> Request {
    Request::Run("git"@, seq!["-C"@, repo] + rest, timeout)
}

} // verus!
