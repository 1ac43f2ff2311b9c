//! Commands and their outputs, and the scripted test double that stands in
//! for the machine. Every side effect in the system is a [`Cmd`]; the code
//! that runs one lives outside this library.

use vstd::prelude::*;
use vstd::string::*;
use crate::error::CoreError;
use crate::sink::{Level, PipelineEvent, Sink};
use crate::digest::{hex, sha256, sha256_hex};
use crate::order::{sort_by, sort_strings, str_order};
use crate::text::{
    after_last, contains, ends_with, join_strs, join_strings, joined, lines, lines_of, split_char,
    split_on, starts_with, str_after_last, str_contains, str_ends_with, str_eq, str_starts_with,
    str_trim_start_char, string_views, trim_start_char, views, radix, radix_string, dec, dec_int,
    dec_string, dec_string_i64, trim, trimmed,
};

verus! {

#[derive(Debug, Clone, PartialEq, Eq)]
pub struct Cmd {
    pub program: String,
    pub args: Vec<String>,
    pub timeout_s: u64,
}

/// The command line as one string: program, then the arguments, spaced.
pub open spec fn rendering(program: Seq<char>, args: Seq<Seq<char>>) -> Seq<char> {
    program + " "@ + joined(args, " "@)
}

impl Cmd {
    pub fn new(program: &str, args: &[&str], timeout_s: u64) -> (c: Self)
        ensures
            c.program@ == program@,
            string_views(c.args@) == args@.map_values(|a: &str| a@),
            c.timeout_s == timeout_s,
    {
        let mut v: Vec<String> = Vec::new();
        let mut i: usize = 0;
        while i < args.len()
            invariant
                i <= args.len(),
                v@.len() == i,
                forall|k: int| 0 <= k < i ==> (#[trigger] v@[k])@ == args@[k]@,
            decreases args.len() - i,
        {
            v.push(String::from_str(args[i]));
            i += 1;
        }
        proof {
            assert(string_views(v@) =~= args@.map_values(|a: &str| a@));
        }
        Cmd { program: String::from_str(program), args: v, timeout_s }
    }

    pub fn rendered(&self) -> (r: String)
        ensures
            r@ == rendering(self.program@, string_views(self.args@)),
    {
        let mut s = self.program.clone();
        s.append(" ");
        let a = join_strings(self.args.as_slice(), " ");
        s.append(a.as_str());
        s
    }
}

#[derive(Debug, Clone)]
pub struct CmdOutput {
    pub stdout: String,
    pub stderr: String,
    pub code: i32,
}

impl CmdOutput {
    pub fn ok(stdout: &str) -> (o: Self)
        ensures
            o.stdout@ == stdout@,
            o.stderr@ == Seq::<char>::empty(),
            o.code == 0,
    {
        CmdOutput { stdout: String::from_str(stdout), stderr: String::new(), code: 0 }
    }

    pub fn failed(code: i32, stderr: &str) -> (o: Self)
        ensures
            o.stdout@ == Seq::<char>::empty(),
            o.stderr@ == stderr@,
            o.code == code,
    {
        CmdOutput { stdout: String::new(), stderr: String::from_str(stderr), code }
    }

    pub fn success(&self) -> (r: bool)
        ensures
            r == (self.code == 0),
    {
        self.code == 0
    }
}

/// An output with its texts as characters.
pub struct OutputView {
    pub stdout: Seq<char>,
    pub stderr: Seq<char>,
    pub code: i32,
}

impl View for CmdOutput {
    type V = OutputView;

    open spec fn view(&self) -> OutputView {
        OutputView { stdout: self.stdout@, stderr: self.stderr@, code: self.code }
    }
}

pub fn clone_output(o: &CmdOutput) -> (r: CmdOutput)
    ensures
        r@ == o@,
{
    CmdOutput { stdout: o.stdout.clone(), stderr: o.stderr.clone(), code: o.code }
}

/// A scripted rule: a matcher and the output it yields.
pub open spec fn rules_view(v: Seq<(String, CmdOutput)>) -> Seq<(Seq<char>, OutputView)> {
    v.map_values(|r: (String, CmdOutput)| (r.0@, r.1@))
}

/// The in-memory filesystem: path, content, mode.
pub open spec fn files_view(v: Seq<(String, String, u32)>) -> Seq<(Seq<char>, Seq<char>, u32)> {
    v.map_values(|f: (String, String, u32)| (f.0@, f.1@, f.2))
}

/// The first entry for `path`, or -1.
pub open spec fn file_index(fs: Seq<(Seq<char>, Seq<char>, u32)>, path: Seq<char>) -> int
    decreases fs.len(),
{
    if fs.len() == 0 {
        -1
    } else if file_index(fs.drop_last(), path) >= 0 {
        file_index(fs.drop_last(), path)
    } else if fs.last().0 == path {
        fs.len() - 1
    } else {
        -1
    }
}

/// The filesystem after writing `content` with `mode` at `path`.
pub open spec fn file_insert(
    fs: Seq<(Seq<char>, Seq<char>, u32)>,
    path: Seq<char>,
    content: Seq<char>,
    mode: u32,
) -> Seq<(Seq<char>, Seq<char>, u32)> {
    let i = file_index(fs, path);
    if i >= 0 {
        fs.update(i, (path, content, mode))
    } else {
        fs.push((path, content, mode))
    }
}

/// Scripted test double. Default behavior: every command succeeds with empty
/// output; files behave like an in-memory filesystem. Script exceptions with
/// [`MockExecutor::enqueue`] (consumed once, in order, first match wins) or
/// [`MockExecutor::respond_always`].
pub struct MockExecutor {
    calls: Vec<String>,
    /// Rendered command paired with the timeout it was given: a timeout is
    /// part of whether an operation can succeed at all.
    timeouts: Vec<(String, u64)>,
    queue: Vec<(String, CmdOutput)>,
    always: Vec<(String, CmdOutput)>,
    files: Vec<(String, String, u32)>,
    /// What `pct push` has landed inside the container, by destination.
    pushed: Vec<(String, String)>,
    /// What `pct set` has changed about the container, by config key.
    config: Vec<(String, String)>,
    /// What `pct create`/`pct clone` asked for; only fills gaps.
    created: Vec<(String, String)>,
    /// Which app containers `docker compose up -d` has started.
    running: Vec<String>,
    /// Everything asked of it through the `Executor` trait, in order.
    asked: Ghost<Seq<Request>>,
    /// What each of those requests answered.
    heard: Ghost<Seq<Option<OutputView>>>,
}

impl MockExecutor {
    pub closed spec fn call_log(&self) -> Seq<Seq<char>> {
        string_views(self.calls@)
    }

    pub closed spec fn timeout_log(&self) -> Seq<(Seq<char>, u64)> {
        self.timeouts@.map_values(|t: (String, u64)| (t.0@, t.1))
    }

    pub closed spec fn queued(&self) -> Seq<(Seq<char>, OutputView)> {
        rules_view(self.queue@)
    }

    pub closed spec fn standing(&self) -> Seq<(Seq<char>, OutputView)> {
        rules_view(self.always@)
    }

    pub closed spec fn fs(&self) -> Seq<(Seq<char>, Seq<char>, u32)> {
        files_view(self.files@)
    }

    pub fn new() -> (m: Self)
        ensures
            m.call_log() == Seq::<Seq<char>>::empty(),
            m.timeout_log() == Seq::<(Seq<char>, u64)>::empty(),
            m.queued() == Seq::<(Seq<char>, OutputView)>::empty(),
            m.standing() == Seq::<(Seq<char>, OutputView)>::empty(),
            m.fs() == Seq::<(Seq<char>, Seq<char>, u32)>::empty(),
            m.state().pushed.len() == 0,
            m.state().config.len() == 0,
            m.state().created.len() == 0,
            m.state().running.len() == 0,
            m.requests() == Seq::<Request>::empty(),
            m.replies() == Seq::<Option<OutputView>>::empty(),
    {
        let m = MockExecutor {
            calls: Vec::new(),
            timeouts: Vec::new(),
            queue: Vec::new(),
            always: Vec::new(),
            files: Vec::new(),
            pushed: Vec::new(),
            config: Vec::new(),
            created: Vec::new(),
            running: Vec::new(),
            asked: Ghost(Seq::empty()),
            heard: Ghost(Seq::empty()),
        };
        proof {
            assert(m.call_log() =~= Seq::<Seq<char>>::empty());
            assert(m.timeout_log() =~= Seq::<(Seq<char>, u64)>::empty());
            assert(m.queued() =~= Seq::<(Seq<char>, OutputView)>::empty());
            assert(m.standing() =~= Seq::<(Seq<char>, OutputView)>::empty());
            assert(m.fs() =~= Seq::<(Seq<char>, Seq<char>, u32)>::empty());
        }
        m
    }

    /// Next command whose rendered form contains `matcher` returns `out`
    /// (consumed once).
    pub fn enqueue(&mut self, matcher: &str, out: CmdOutput)
        ensures
            final(self).queued() == old(self).queued().push((matcher@, out@)),
            final(self).standing() == old(self).standing(),
            final(self).call_log() == old(self).call_log(),
            final(self).timeout_log() == old(self).timeout_log(),
            final(self).fs() == old(self).fs(),
    {
        self.queue.push((String::from_str(matcher), out));
        proof {
            assert(rules_view(self.queue@) =~= rules_view(old(self).queue@).push((matcher@, out@)));
        }
    }

    /// Like `respond_always`, but wins over rules registered earlier.
    pub fn respond_first(&mut self, matcher: &str, out: CmdOutput)
        ensures
            final(self).standing() == seq![(matcher@, out@)] + old(self).standing(),
            final(self).queued() == old(self).queued(),
            final(self).call_log() == old(self).call_log(),
            final(self).timeout_log() == old(self).timeout_log(),
            final(self).fs() == old(self).fs(),
    {
        self.always.insert(0, (String::from_str(matcher), out));
        proof {
            assert(rules_view(self.always@) =~= seq![(matcher@, out@)] + rules_view(
                old(self).always@,
            ));
        }
    }

    /// Every command whose rendered form contains `matcher` returns `out`
    /// (unless a queued rule matched first).
    pub fn respond_always(&mut self, matcher: &str, out: CmdOutput)
        ensures
            final(self).standing() == old(self).standing().push((matcher@, out@)),
            final(self).queued() == old(self).queued(),
            final(self).call_log() == old(self).call_log(),
            final(self).timeout_log() == old(self).timeout_log(),
            final(self).fs() == old(self).fs(),
    {
        self.always.push((String::from_str(matcher), out));
        proof {
            assert(rules_view(self.always@) =~= rules_view(old(self).always@).push((matcher@, out@)));
        }
    }

    /// Rendered forms of every executed command, in order.
    pub fn calls(&self) -> (r: Vec<String>)
        ensures
            string_views(r@) == self.call_log(),
    {
        let mut out: Vec<String> = Vec::new();
        let mut i: usize = 0;
        while i < self.calls.len()
            invariant
                i <= self.calls.len(),
                out@.len() == i,
                forall|k: int| 0 <= k < i ==> (#[trigger] out@[k])@ == self.calls@[k]@,
            decreases self.calls.len() - i,
        {
            out.push(self.calls[i].clone());
            i += 1;
        }
        proof {
            assert(string_views(out@) =~= string_views(self.calls@));
        }
        out
    }

    /// Timeouts given to every command whose rendered form contains `needle`.
    pub fn timeouts_for(&self, needle: &str) -> (r: Vec<u64>)
        ensures
            r@ == timeouts_matching(self.timeout_log(), needle@),
    {
        let mut out: Vec<u64> = Vec::new();
        let mut i: usize = 0;
        while i < self.timeouts.len()
            invariant
                i <= self.timeouts.len(),
                out@ == timeouts_matching(self.timeout_log().take(i as int), needle@),
            decreases self.timeouts.len() - i,
        {
            proof {
                assert(self.timeout_log().take(i + 1).drop_last() =~= self.timeout_log().take(
                    i as int,
                ));
                assert(self.timeout_log().take(i + 1).last() == (
                    self.timeouts@[i as int].0@,
                    self.timeouts@[i as int].1,
                ));
            }
            if str_contains(self.timeouts[i].0.as_str(), needle) {
                out.push(self.timeouts[i].1);
            }
            i += 1;
        }
        proof {
            assert(self.timeout_log().take(self.timeouts.len() as int) =~= self.timeout_log());
        }
        out
    }

    pub fn calls_containing(&self, needle: &str) -> (r: Vec<String>)
        ensures
            string_views(r@) == matching(self.call_log(), needle@),
    {
        let mut out: Vec<String> = Vec::new();
        let mut i: usize = 0;
        while i < self.calls.len()
            invariant
                i <= self.calls.len(),
                string_views(out@) == matching(self.call_log().take(i as int), needle@),
            decreases self.calls.len() - i,
        {
            proof {
                assert(self.call_log().take(i + 1).drop_last() =~= self.call_log().take(i as int));
                assert(self.call_log().take(i + 1).last() == self.calls@[i as int]@);
            }
            if str_contains(self.calls[i].as_str(), needle) {
                out.push(self.calls[i].clone());
                proof {
                    assert(string_views(out@) =~= matching(self.call_log().take(i as int), needle@).push(
                        self.calls@[i as int]@,
                    ));
                }
            }
            i += 1;
        }
        proof {
            assert(self.call_log().take(self.calls.len() as int) =~= self.call_log());
        }
        out
    }

    /// All paths written through `write_file` or seeded.
    pub fn file_paths(&self) -> (r: Vec<String>)
        ensures
            string_views(r@) == self.fs().map_values(|f: (Seq<char>, Seq<char>, u32)| f.0),
    {
        let mut out: Vec<String> = Vec::new();
        let mut i: usize = 0;
        while i < self.files.len()
            invariant
                i <= self.files.len(),
                out@.len() == i,
                forall|k: int| 0 <= k < i ==> (#[trigger] out@[k])@ == self.files@[k].0@,
            decreases self.files.len() - i,
        {
            out.push(self.files[i].0.clone());
            i += 1;
        }
        proof {
            assert(string_views(out@) =~= self.fs().map_values(
                |f: (Seq<char>, Seq<char>, u32)| f.0,
            ));
        }
        out
    }

    fn find_file(&self, path: &str) -> (r: Option<usize>)
        ensures
            r matches Some(i) ==> i < self.files.len() && file_index(self.fs(), path@) == i,
            r is None ==> file_index(self.fs(), path@) == -1,
    {
        let mut i: usize = 0;
        while i < self.files.len()
            invariant
                i <= self.files.len(),
                file_index(self.fs().take(i as int), path@) == -1,
            decreases self.files.len() - i,
        {
            proof {
                assert(self.fs().take(i + 1).drop_last() =~= self.fs().take(i as int));
                assert(self.fs().take(i + 1).last() == self.fs()[i as int]);
            }
            if crate::text::str_eq(self.files[i].0.as_str(), path) {
                proof {
                    lemma_file_index_prefix(self.fs(), path@, i as int);
                }
                return Some(i);
            }
            i += 1;
        }
        proof {
            assert(self.fs().take(self.files.len() as int) =~= self.fs());
        }
        None
    }

    pub fn file(&self, path: &str) -> (r: Option<String>)
        ensures
            file_index(self.fs(), path@) >= 0 ==> (r matches Some(c) && c@ == self.fs()[file_index(
                self.fs(),
                path@,
            )].1),
            file_index(self.fs(), path@) < 0 ==> r is None,
    {
        match self.find_file(path) {
            Some(i) => Some(self.files[i].1.clone()),
            None => None,
        }
    }

    pub fn file_mode(&self, path: &str) -> (r: Option<u32>)
        ensures
            file_index(self.fs(), path@) >= 0 ==> r == Some(self.fs()[file_index(
                self.fs(),
                path@,
            )].2),
            file_index(self.fs(), path@) < 0 ==> r is None,
    {
        match self.find_file(path) {
            Some(i) => Some(self.files[i].2),
            None => None,
        }
    }

    fn put_file(&mut self, path: &str, content: &str, mode: u32)
        ensures
            final(self).fs() == file_insert(old(self).fs(), path@, content@, mode),
            final(self).call_log() == old(self).call_log(),
            final(self).timeout_log() == old(self).timeout_log(),
            final(self).queued() == old(self).queued(),
            final(self).standing() == old(self).standing(),
    {
        let entry = (String::from_str(path), String::from_str(content), mode);
        match self.find_file(path) {
            Some(i) => {
                self.files.set(i, entry);
                proof {
                    assert(self.fs() =~= old(self).fs().update(i as int, (path@, content@, mode)));
                }
            },
            None => {
                self.files.push(entry);
                proof {
                    assert(self.fs() =~= old(self).fs().push((path@, content@, mode)));
                }
            },
        }
    }

    pub fn seed_file(&mut self, path: &str, content: &str)
        ensures
            final(self).fs() == file_insert(old(self).fs(), path@, content@, 0o644),
            final(self).call_log() == old(self).call_log(),
            final(self).timeout_log() == old(self).timeout_log(),
            final(self).queued() == old(self).queued(),
            final(self).standing() == old(self).standing(),
    {
        self.put_file(path, content, 0o644);
    }

    /// Atomically write a file: recorded as a call and stored.
    pub fn write_file(&mut self, path: &str, content: &str, mode: u32) -> (r: Result<(), CoreError>)
        ensures
            r is Ok,
            final(self).fs() == file_insert(old(self).fs(), path@, content@, mode),
            final(self).call_log() == old(self).call_log().push(
                "write_file "@ + path@ + " (mode "@ + radix(mode as nat, 8) + ")"@,
            ),
            final(self).timeout_log() == old(self).timeout_log(),
            final(self).queued() == old(self).queued(),
            final(self).standing() == old(self).standing(),
    {
        let mut line = String::from_str("write_file ");
        line.append(path);
        line.append(" (mode ");
        let m = radix_string(mode as u64, 8);
        line.append(m.as_str());
        line.append(")");
        self.calls.push(line);
        proof {
            assert(string_views(self.calls@) =~= string_views(old(self).calls@).push(line@));
        }
        self.put_file(path, content, mode);
        Ok(())
    }

    /// Read a file; an error when it does not exist.
    pub fn read_file(&self, path: &str) -> (r: Result<String, CoreError>)
        ensures
            file_index(self.fs(), path@) >= 0 ==> (r matches Ok(c) && c@ == self.fs()[file_index(
                self.fs(),
                path@,
            )].1),
            file_index(self.fs(), path@) < 0 ==> (r matches Err(CoreError::State(m)) && m@
                == "no such file: "@ + path@),
    {
        match self.file(path) {
            Some(c) => Ok(c),
            None => {
                let mut m = String::from_str("no such file: ");
                m.append(path);
                Err(CoreError::State(m))
            },
        }
    }
}

proof fn lemma_file_index_prefix(fs: Seq<(Seq<char>, Seq<char>, u32)>, path: Seq<char>, i: int)
    requires
        0 <= i < fs.len(),
        file_index(fs.take(i), path) == -1,
        fs[i].0 == path,
    ensures
        file_index(fs, path) == i,
    decreases fs.len(),
{
    if i < fs.len() - 1 {
        assert(fs.drop_last().take(i) =~= fs.take(i));
        lemma_file_index_prefix(fs.drop_last(), path, i);
    } else {
        assert(fs.drop_last() =~= fs.take(i));
    }
}

/// The calls whose rendering contains `needle`.
pub open spec fn matching(calls: Seq<Seq<char>>, needle: Seq<char>) -> Seq<Seq<char>>
    decreases calls.len(),
{
    if calls.len() == 0 {
        Seq::empty()
    } else if contains(calls.last(), needle) {
        matching(calls.drop_last(), needle).push(calls.last())
    } else {
        matching(calls.drop_last(), needle)
    }
}

/// The timeouts of the calls whose rendering contains `needle`.
pub open spec fn timeouts_matching(ts: Seq<(Seq<char>, u64)>, needle: Seq<char>) -> Seq<u64>
    decreases ts.len(),
{
    if ts.len() == 0 {
        Seq::empty()
    } else if contains(ts.last().0, needle) {
        timeouts_matching(ts.drop_last(), needle).push(ts.last().1)
    } else {
        timeouts_matching(ts.drop_last(), needle)
    }
}

// ── Running a command against the double ───────────────────────────────────

pub open spec fn kv_view(v: Seq<(String, String)>) -> Seq<(Seq<char>, Seq<char>)> {
    v.map_values(|p: (String, String)| (p.0@, p.1@))
}

/// Everything the double holds, as plain values.
pub struct MockState {
    pub calls: Seq<Seq<char>>,
    pub timeouts: Seq<(Seq<char>, u64)>,
    pub queue: Seq<(Seq<char>, OutputView)>,
    pub always: Seq<(Seq<char>, OutputView)>,
    pub files: Seq<(Seq<char>, Seq<char>, u32)>,
    pub pushed: Seq<(Seq<char>, Seq<char>)>,
    pub config: Seq<(Seq<char>, Seq<char>)>,
    pub created: Seq<(Seq<char>, Seq<char>)>,
    pub running: Seq<Seq<char>>,
}

/// The first index of key `k`, or -1.
pub open spec fn kv_index(m: Seq<(Seq<char>, Seq<char>)>, k: Seq<char>) -> int
    decreases m.len(),
{
    if m.len() == 0 {
        -1
    } else if kv_index(m.drop_last(), k) >= 0 {
        kv_index(m.drop_last(), k)
    } else if m.last().0 == k {
        m.len() - 1
    } else {
        -1
    }
}

/// `k` set to `v`: replaced where it is, added at the end otherwise.
pub open spec fn kv_put(m: Seq<(Seq<char>, Seq<char>)>, k: Seq<char>, v: Seq<char>) -> Seq<(Seq<char>, Seq<char>)> {
    let i = kv_index(m, k);
    if i >= 0 {
        m.update(i, (k, v))
    } else {
        m.push((k, v))
    }
}

/// The `-flag value` pairs of an argument list: an argument that is not a
/// flag is passed over, and a flag without a value ends the list.
pub open spec fn flag_pairs(args: Seq<Seq<char>>) -> Seq<(Seq<char>, Seq<char>)>
    decreases args.len(),
{
    if args.len() == 0 {
        Seq::empty()
    } else if !starts_with(args[0], "-"@) {
        flag_pairs(args.drop_first())
    } else if args.len() == 1 {
        Seq::empty()
    } else {
        seq![(trim_start_char(args[0], '-'), args[1])] + flag_pairs(args.skip(2))
    }
}

pub open spec fn kv_put_all(m: Seq<(Seq<char>, Seq<char>)>, ps: Seq<(Seq<char>, Seq<char>)>) -> Seq<(Seq<char>, Seq<char>)>
    decreases ps.len(),
{
    if ps.len() == 0 {
        m
    } else {
        kv_put_all(kv_put(m, ps[0].0, ps[0].1), ps.drop_first())
    }
}

/// The arguments after the first `n` (none when there are fewer).
pub open spec fn args_after(args: Seq<Seq<char>>, n: int) -> Seq<Seq<char>> {
    if n <= args.len() {
        args.skip(n)
    } else {
        Seq::empty()
    }
}

pub open spec fn first_arg_is(args: Seq<Seq<char>>, a: Seq<char>) -> bool {
    args.len() > 0 && args[0] == a
}

/// `pct set` changes the configuration (and outranks what a test
/// scripted); `pct create`/`clone` describe the starting state.
pub open spec fn after_config(s: MockState, program: Seq<char>, args: Seq<Seq<char>>) -> MockState {
    if program == "pct"@ && first_arg_is(args, "set"@) {
        MockState { config: kv_put_all(s.config, flag_pairs(args_after(args, 2))), ..s }
    } else if program == "pct"@ && (first_arg_is(args, "create"@) || first_arg_is(args, "clone"@)) {
        MockState { created: kv_put_all(s.created, flag_pairs(args_after(args, 3))), ..s }
    } else {
        s
    }
}

/// The app a `docker compose` command runs in: the last part of the first
/// quoted directory.
pub open spec fn compose_app(r: Seq<char>) -> Option<Seq<char>> {
    if contains(r, "docker compose"@) && split_on(r, '\'').len() > 1 {
        Some(after_last(split_on(r, '\'')[1], '/'))
    } else {
        None
    }
}

pub open spec fn set_add(v: Seq<Seq<char>>, x: Seq<char>) -> Seq<Seq<char>> {
    if v.contains(x) {
        v
    } else {
        v.push(x)
    }
}

pub open spec fn set_remove(v: Seq<Seq<char>>, x: Seq<char>) -> Seq<Seq<char>>
    decreases v.len(),
{
    if v.len() == 0 {
        v
    } else {
        set_remove(v.drop_last(), x) + if v.last() == x {
            Seq::empty()
        } else {
            seq![v.last()]
        }
    }
}

/// `compose up` starts the app, `compose down` stops it.
pub open spec fn after_compose(s: MockState, r: Seq<char>) -> MockState {
    match compose_app(r) {
        Some(app) => if contains(r, "compose up"@) {
            MockState { running: set_add(s.running, app), ..s }
        } else if contains(r, "compose down"@) {
            MockState { running: set_remove(s.running, app), ..s }
        } else {
            s
        },
        None => s,
    }
}

/// The first rule whose matcher the rendering contains.
pub open spec fn rule_index(rules: Seq<(Seq<char>, OutputView)>, r: Seq<char>) -> int
    decreases rules.len(),
{
    if rules.len() == 0 {
        -1
    } else if rule_index(rules.drop_last(), r) >= 0 {
        rule_index(rules.drop_last(), r)
    } else if contains(r, rules.last().0) {
        rules.len() - 1
    } else {
        -1
    }
}

pub open spec fn ok_view(stdout: Seq<char>) -> OutputView {
    OutputView { stdout, stderr: Seq::empty(), code: 0 }
}

/// `docker ps` answers with the running apps, sorted, unless a standing
/// rule speaks for it.
pub open spec fn ps_answer(s: MockState, r: Seq<char>) -> Option<OutputView> {
    if contains(r, "docker ps --format"@) && s.running.len() > 0 && rule_index(s.always, r) < 0 {
        Some(ok_view(joined(sort_by(s.running, str_order()), "\n"@) + "\n"@))
    } else {
        None
    }
}

/// The file at `path` in the double's filesystem.
pub open spec fn file_content(fs: Seq<(Seq<char>, Seq<char>, u32)>, path: Seq<char>) -> Option<Seq<char>> {
    let i = file_index(fs, path);
    if i >= 0 {
        Some(fs[i].1)
    } else {
        None
    }
}

/// `pct push <vmid> <src> <dest>` lands the staged file at its destination.
pub open spec fn after_push(s: MockState, program: Seq<char>, args: Seq<Seq<char>>) -> MockState {
    if program == "pct"@ && first_arg_is(args, "push"@) && args.len() > 3 {
        match file_content(s.files, args[2]) {
            Some(c) => MockState { pushed: kv_put(s.pushed, args[3], c), ..s },
            None => s,
        }
    } else {
        s
    }
}

pub open spec fn with_newline(out: Seq<char>) -> Seq<char> {
    if out.len() > 0 && !ends_with(out, "\n"@) {
        out + "\n"@
    } else {
        out
    }
}

pub open spec fn has_key_line(out: Seq<char>, k: Seq<char>) -> bool {
    exists|i: int| 0 <= i < lines_of(out).len() && starts_with(lines_of(out)[i], k + ":"@)
}

/// What `pct create` asked for, added only where the answer is silent.
pub open spec fn add_created(out: Seq<char>, created: Seq<(Seq<char>, Seq<char>)>) -> Seq<char>
    decreases created.len(),
{
    if created.len() == 0 {
        out
    } else {
        let (k, v) = created[0];
        let o2 = if has_key_line(out, k) {
            out
        } else {
            with_newline(out) + k + ": "@ + v + "\n"@
        };
        add_created(o2, created.drop_first())
    }
}

pub open spec fn without_key(ls: Seq<Seq<char>>, k: Seq<char>) -> Seq<Seq<char>>
    decreases ls.len(),
{
    if ls.len() == 0 {
        ls
    } else {
        without_key(ls.drop_last(), k) + if starts_with(ls.last(), k + ":"@) {
            Seq::empty()
        } else {
            seq![ls.last()]
        }
    }
}

/// What `pct set` changed, replacing whatever the answer said about it.
pub open spec fn set_config(out: Seq<char>, config: Seq<(Seq<char>, Seq<char>)>) -> Seq<char>
    decreases config.len(),
{
    if config.len() == 0 {
        out
    } else {
        let (k, v) = config[0];
        set_config(with_newline(joined(without_key(lines_of(out), k), "\n"@)) + k + ": "@ + v + "\n"@, config.drop_first())
    }
}

/// `pct config` answers with the scripted configuration merged with what
/// was created and set.
pub open spec fn config_answer(s: MockState, r: Seq<char>) -> Seq<char> {
    let i = rule_index(s.always, r);
    let scripted = if i >= 0 { s.always[i].1.stdout } else { Seq::empty() };
    set_config(add_created(scripted, s.created), s.config)
}

/// The checksums of the pushed files the command names.
pub open spec fn sha_lines(pushed: Seq<(Seq<char>, Seq<char>)>, r: Seq<char>) -> Seq<char>
    decreases pushed.len(),
{
    if pushed.len() == 0 {
        Seq::empty()
    } else {
        sha_lines(pushed.drop_last(), r) + if contains(r, pushed.last().0) {
            hex(sha256(vstd::utf8::encode_utf8(pushed.last().1))) + "  "@ + pushed.last().0 + "\n"@
        } else {
            Seq::empty()
        }
    }
}

/// After the bookkeeping: a queued rule (consumed), a `pct config` the
/// double can answer, a standing rule, a checksum of a pushed file, or
/// success with no output.
pub open spec fn answer(s: MockState, program: Seq<char>, args: Seq<Seq<char>>, r: Seq<char>) -> (MockState, OutputView) {
    let q = rule_index(s.queue, r);
    if q >= 0 {
        (MockState { queue: s.queue.remove(q), ..s }, s.queue[q].1)
    } else if program == "pct"@ && first_arg_is(args, "config"@) && (s.config.len() > 0 || s.created.len() > 0) {
        (s, ok_view(config_answer(s, r)))
    } else if rule_index(s.always, r) >= 0 {
        (s, s.always[rule_index(s.always, r)].1)
    } else if contains(r, "sha256sum"@) && sha_lines(s.pushed, r).len() > 0 {
        (s, ok_view(sha_lines(s.pushed, r)))
    } else {
        (s, ok_view(Seq::empty()))
    }
}

/// One command run against the double: recorded with its timeout, its
/// effects on the modelled container applied, then answered.
pub open spec fn mock_run(s: MockState, program: Seq<char>, args: Seq<Seq<char>>, timeout: u64) -> (MockState, OutputView) {
    let r = rendering(program, args);
    let s1 = MockState { calls: s.calls.push(r), timeouts: s.timeouts.push((r, timeout)), ..s };
    let s3 = after_compose(after_config(s1, program, args), r);
    match ps_answer(s3, r) {
        Some(o) => (s3, o),
        None => answer(after_push(s3, program, args), program, args, r),
    }
}

impl MockExecutor {
    pub closed spec fn state(&self) -> MockState {
        MockState {
            calls: string_views(self.calls@),
            timeouts: self.timeouts@.map_values(|t: (String, u64)| (t.0@, t.1)),
            queue: rules_view(self.queue@),
            always: rules_view(self.always@),
            files: files_view(self.files@),
            pushed: kv_view(self.pushed@),
            config: kv_view(self.config@),
            created: kv_view(self.created@),
            running: string_views(self.running@),
        }
    }

    /// Run a command. It always returns `Ok`: a failing command is an
    /// output with a non-zero code.
    pub fn run(&mut self, cmd: &Cmd) -> (r: Result<CmdOutput, CoreError>)
        ensures
            r matches Ok(o) && (final(self).state(), o@) == mock_run(
                old(self).state(),
                cmd.program@,
                string_views(cmd.args@),
                cmd.timeout_s,
            ),
    {
        let rendered = cmd.rendered();
        let ghost s0 = self.state();
        self.calls.push(rendered.clone());
        self.timeouts.push((rendered.clone(), cmd.timeout_s));
        proof {
            assert(string_views(self.calls@) =~= s0.calls.push(rendered@));
            assert(self.timeouts@.map_values(|t: (String, u64)| (t.0@, t.1)) =~= s0.timeouts.push((rendered@, cmd.timeout_s)));
        }
        self.apply_config(cmd);
        self.apply_compose(rendered.as_str());
        if let Some(o) = self.ps_output(rendered.as_str()) {
            return Ok(o);
        }
        self.apply_push(cmd);
        Ok(self.respond(cmd, rendered.as_str()))
    }
}

proof fn lemma_kv_index_prefix(m: Seq<(Seq<char>, Seq<char>)>, k: Seq<char>, i: int)
    requires
        0 <= i < m.len(),
        kv_index(m.take(i), k) == -1,
        m[i].0 == k,
    ensures
        kv_index(m, k) == i,
    decreases m.len(),
{
    if i < m.len() - 1 {
        assert(m.drop_last().take(i) =~= m.take(i));
        lemma_kv_index_prefix(m.drop_last(), k, i);
    } else {
        assert(m.drop_last() =~= m.take(i));
    }
}

fn kv_find(v: &Vec<(String, String)>, k: &str) -> (r: Option<usize>)
    ensures
        r matches Some(i) ==> i < v.len() && kv_index(kv_view(v@), k@) == i,
        r is None ==> kv_index(kv_view(v@), k@) == -1,
{
    let ghost m = kv_view(v@);
    let mut i: usize = 0;
    while i < v.len()
        invariant
            i <= v.len(),
            m == kv_view(v@),
            kv_index(m.take(i as int), k@) == -1,
        decreases v.len() - i,
    {
        proof {
            assert(m.take(i + 1).drop_last() =~= m.take(i as int));
            assert(m.take(i + 1).last() == m[i as int]);
        }
        if str_eq(v[i].0.as_str(), k) {
            proof {
                lemma_kv_index_prefix(m, k@, i as int);
            }
            return Some(i);
        }
        i += 1;
    }
    proof {
        assert(m.take(v.len() as int) =~= m);
    }
    None
}

fn put_kv(v: &mut Vec<(String, String)>, k: String, val: String)
    ensures
        kv_view(final(v)@) == kv_put(kv_view(old(v)@), k@, val@),
{
    let ghost m = kv_view(v@);
    match kv_find(v, k.as_str()) {
        Some(i) => {
            let ghost kv = k@;
            let ghost vv = val@;
            v.set(i, (k, val));
            proof {
                assert(kv_view(v@) =~= m.update(i as int, (kv, vv)));
            }
        },
        None => {
            let ghost kv = k@;
            let ghost vv = val@;
            v.push((k, val));
            proof {
                assert(kv_view(v@) =~= m.push((kv, vv)));
            }
        },
    }
}

fn put_flags(v: &mut Vec<(String, String)>, args: &Vec<String>, start: usize)
    requires
        start <= args.len(),
    ensures
        kv_view(final(v)@) == kv_put_all(kv_view(old(v)@), flag_pairs(string_views(args@).skip(start as int))),
{
    let ghost a = string_views(args@);
    let ghost goal = kv_put_all(kv_view(v@), flag_pairs(a.skip(start as int)));
    let mut i = start;
    while i < args.len()
        invariant
            start <= i <= args.len(),
            a == string_views(args@),
            goal == kv_put_all(kv_view(v@), flag_pairs(a.skip(i as int))),
        decreases args.len() - i,
    {
        proof {
            assert(a.skip(i as int)[0] == args@[i as int]@);
            assert(a.skip(i as int).drop_first() =~= a.skip(i + 1));
        }
        if !str_starts_with(args[i].as_str(), "-") {
            i += 1;
        } else if i + 1 == args.len() {
            proof {
                assert(a.skip(i as int).len() == 1);
                assert(flag_pairs(a.skip(i as int)) =~= Seq::<(Seq<char>, Seq<char>)>::empty());
                assert(flag_pairs(a.skip(args.len() as int)) =~= Seq::<(Seq<char>, Seq<char>)>::empty());
            }
            i += 1;
        } else {
            let key = String::from_str(str_trim_start_char(args[i].as_str(), '-'));
            let value = args[i + 1].clone();
            proof {
                let rest = flag_pairs(a.skip(i + 2));
                assert(a.skip(i as int).skip(2) =~= a.skip(i + 2));
                assert(a.skip(i as int)[1] == args@[i + 1]@);
                let x = (trim_start_char(args@[i as int]@, '-'), args@[i + 1]@);
                assert(flag_pairs(a.skip(i as int)) == seq![x] + rest);
                assert((seq![x] + rest)[0] == x);
                assert((seq![x] + rest).drop_first() =~= rest);
            }
            put_kv(v, key, value);
            i += 2;
        }
    }
    proof {
        assert(a.skip(args.len() as int) =~= Seq::<Seq<char>>::empty());
    }
}

fn rule_find(rules: &Vec<(String, CmdOutput)>, r: &str) -> (res: Option<usize>)
    ensures
        res matches Some(i) ==> i < rules.len() && rule_index(rules_view(rules@), r@) == i,
        res is None ==> rule_index(rules_view(rules@), r@) == -1,
{
    let ghost m = rules_view(rules@);
    let mut i: usize = 0;
    while i < rules.len()
        invariant
            i <= rules.len(),
            m == rules_view(rules@),
            rule_index(m.take(i as int), r@) == -1,
        decreases rules.len() - i,
    {
        proof {
            assert(m.take(i + 1).drop_last() =~= m.take(i as int));
            assert(m.take(i + 1).last() == m[i as int]);
        }
        if str_contains(r, rules[i].0.as_str()) {
            proof {
                lemma_rule_index_prefix(m, r@, i as int);
            }
            return Some(i);
        }
        i += 1;
    }
    proof {
        assert(m.take(rules.len() as int) =~= m);
    }
    None
}

proof fn lemma_rule_index_prefix(m: Seq<(Seq<char>, OutputView)>, r: Seq<char>, i: int)
    requires
        0 <= i < m.len(),
        rule_index(m.take(i), r) == -1,
        contains(r, m[i].0),
    ensures
        rule_index(m, r) == i,
    decreases m.len(),
{
    if i < m.len() - 1 {
        assert(m.drop_last().take(i) =~= m.take(i));
        lemma_rule_index_prefix(m.drop_last(), r, i);
    } else {
        assert(m.drop_last() =~= m.take(i));
    }
}

fn with_newline_exec(out: &mut String)
    ensures
        final(out)@ == with_newline(old(out)@),
{
    if out.unicode_len() > 0 && !str_ends_with(out.as_str(), "\n") {
        out.append("\n");
    }
}

fn key_line_present(out: &str, k: &str) -> (r: bool)
    ensures
        r == has_key_line(out@, k@),
{
    let ls = lines(out);
    let mut p = String::from_str(k);
    p.append(":");
    let mut i: usize = 0;
    while i < ls.len()
        invariant
            i <= ls.len(),
            views(ls@) == lines_of(out@),
            p@ == k@ + ":"@,
            forall|j: int| 0 <= j < i ==> !starts_with(lines_of(out@)[j], k@ + ":"@),
        decreases ls.len() - i,
    {
        if str_starts_with(ls[i], p.as_str()) {
            proof {
                assert(lines_of(out@)[i as int] == ls@[i as int]@);
            }
            return true;
        }
        proof {
            assert(lines_of(out@)[i as int] == ls@[i as int]@);
        }
        i += 1;
    }
    false
}

fn drop_key_lines(out: &str, k: &str) -> (r: String)
    ensures
        r@ == joined(without_key(lines_of(out@), k@), "\n"@),
{
    let ls = lines(out);
    let ghost lv = views(ls@);
    let mut p = String::from_str(k);
    p.append(":");
    let mut kept: Vec<&str> = Vec::new();
    let mut i: usize = 0;
    while i < ls.len()
        invariant
            i <= ls.len(),
            lv == views(ls@),
            lv == lines_of(out@),
            p@ == k@ + ":"@,
            views(kept@) == without_key(lv.take(i as int), k@),
        decreases ls.len() - i,
    {
        proof {
            assert(lv.take(i + 1).drop_last() =~= lv.take(i as int));
            assert(lv.take(i + 1).last() == ls@[i as int]@);
        }
        if !str_starts_with(ls[i], p.as_str()) {
            let ghost before = views(kept@);
            kept.push(ls[i]);
            proof {
                assert(views(kept@) =~= before.push(ls@[i as int]@));
            }
        } else {
            proof {
                assert(without_key(lv.take(i + 1), k@) =~= without_key(lv.take(i as int), k@));
            }
        }
        i += 1;
    }
    proof {
        assert(lv.take(ls.len() as int) =~= lv);
    }
    join_strs(&kept, "\n")
}

impl MockExecutor {
    fn apply_config(&mut self, cmd: &Cmd)
        ensures
            final(self).state() == after_config(old(self).state(), cmd.program@, string_views(cmd.args@)),
    {
        let ghost s0 = self.state();
        let ghost a = string_views(cmd.args@);
        if !str_eq(cmd.program.as_str(), "pct") || cmd.args.len() == 0 {
            proof {
                assert(!first_arg_is(a, "set"@) && !first_arg_is(a, "create"@) && !first_arg_is(a, "clone"@) || cmd.program@ != "pct"@);
            }
            return;
        }
        proof {
            assert(a[0] == cmd.args@[0]@);
        }
        let first = cmd.args[0].as_str();
        if str_eq(first, "set") {
            if 2 <= cmd.args.len() {
                put_flags(&mut self.config, &cmd.args, 2);
            }
            proof {
                assert(self.state() =~= MockState { config: kv_put_all(s0.config, flag_pairs(args_after(a, 2))), ..s0 });
            }
        } else if str_eq(first, "create") || str_eq(first, "clone") {
            if 3 <= cmd.args.len() {
                put_flags(&mut self.created, &cmd.args, 3);
            }
            proof {
                assert(self.state() =~= MockState { created: kv_put_all(s0.created, flag_pairs(args_after(a, 3))), ..s0 });
            }
        }
    }

    fn apply_compose(&mut self, r: &str)
        ensures
            final(self).state() == after_compose(old(self).state(), r@),
    {
        let ghost s0 = self.state();
        if !str_contains(r, "docker compose") {
            return;
        }
        let parts = split_char(r, '\'');
        if parts.len() <= 1 {
            return;
        }
        proof {
            assert(views(parts@)[1] == parts@[1]@);
        }
        let app = str_after_last(parts[1], '/');
        if str_contains(r, "compose up") {
            if !crate::text::contains_string(&self.running, app) {
                self.running.push(String::from_str(app));
                proof {
                    assert(string_views(self.running@) =~= s0.running.push(app@));
                }
            }
            proof {
                assert(self.state() =~= MockState { running: set_add(s0.running, app@), ..s0 });
            }
        } else if str_contains(r, "compose down") {
            let mut kept: Vec<String> = Vec::new();
            let mut i: usize = 0;
            while i < self.running.len()
                invariant
                    i <= self.running.len(),
                    string_views(self.running@) == s0.running,
                    string_views(kept@) == set_remove(s0.running.take(i as int), app@),
                decreases self.running.len() - i,
            {
                proof {
                    assert(s0.running.take(i + 1).drop_last() =~= s0.running.take(i as int));
                    assert(s0.running.take(i + 1).last() == self.running@[i as int]@);
                }
                if !str_eq(self.running[i].as_str(), app) {
                    let ghost before = string_views(kept@);
                    kept.push(self.running[i].clone());
                    proof {
                        assert(string_views(kept@) =~= before.push(self.running@[i as int]@));
                    }
                } else {
                    proof {
                        assert(set_remove(s0.running.take(i + 1), app@) =~= set_remove(s0.running.take(i as int), app@));
                    }
                }
                i += 1;
            }
            proof {
                assert(s0.running.take(self.running.len() as int) =~= s0.running);
            }
            self.running = kept;
            proof {
                assert(self.state() =~= MockState { running: set_remove(s0.running, app@), ..s0 });
            }
        }
    }

    fn ps_output(&self, r: &str) -> (res: Option<CmdOutput>)
        ensures
            match ps_answer(self.state(), r@) {
                Some(o) => res matches Some(x) && x@ == o,
                None => res is None,
            },
    {
        if !str_contains(r, "docker ps --format") || self.running.len() == 0 {
            return None;
        }
        if rule_find(&self.always, r).is_some() {
            return None;
        }
        let mut copy: Vec<String> = Vec::new();
        let mut i: usize = 0;
        while i < self.running.len()
            invariant
                i <= self.running.len(),
                string_views(copy@) == string_views(self.running@).take(i as int),
            decreases self.running.len() - i,
        {
            let ghost before = string_views(copy@);
            copy.push(self.running[i].clone());
            proof {
                assert(string_views(copy@) =~= before.push(self.running@[i as int]@));
                assert(string_views(self.running@).take(i + 1) =~= string_views(self.running@).take(i as int).push(self.running@[i as int]@));
            }
            i += 1;
        }
        proof {
            assert(string_views(self.running@).take(self.running.len() as int) =~= string_views(self.running@));
        }
        let sorted = sort_strings(copy);
        let mut out = join_strings(sorted.as_slice(), "\n");
        out.append("\n");
        Some(CmdOutput::ok(out.as_str()))
    }

    fn apply_push(&mut self, cmd: &Cmd)
        ensures
            final(self).state() == after_push(old(self).state(), cmd.program@, string_views(cmd.args@)),
    {
        let ghost s0 = self.state();
        let ghost a = string_views(cmd.args@);
        if !str_eq(cmd.program.as_str(), "pct") || cmd.args.len() <= 3 || !str_eq(cmd.args[0].as_str(), "push") {
            proof {
                if cmd.args.len() > 0 {
                    assert(a[0] == cmd.args@[0]@);
                }
            }
            return;
        }
        proof {
            assert(a[0] == cmd.args@[0]@);
            assert(a[2] == cmd.args@[2]@);
            assert(a[3] == cmd.args@[3]@);
        }
        match self.find_file(cmd.args[2].as_str()) {
            Some(i) => {
                let content = self.files[i].1.clone();
                put_kv(&mut self.pushed, cmd.args[3].clone(), content);
                proof {
                    assert(self.state() =~= MockState { pushed: kv_put(s0.pushed, a[3], s0.files[i as int].1), ..s0 });
                }
            },
            None => {},
        }
    }

    fn config_text(&self, r: &str) -> (out: String)
        ensures
            out@ == config_answer(self.state(), r@),
    {
        let mut out = match rule_find(&self.always, r) {
            Some(i) => self.always[i].1.stdout.clone(),
            None => String::new(),
        };
        let ghost cr = kv_view(self.created@);
        let mut i: usize = 0;
        proof {
            assert(cr.skip(0) =~= cr);
        }
        while i < self.created.len()
            invariant
                i <= self.created.len(),
                cr == kv_view(self.created@),
                add_created(out@, cr.skip(i as int)) == add_created(
                    if rule_index(self.state().always, r@) >= 0 { self.state().always[rule_index(self.state().always, r@)].1.stdout } else { Seq::empty() },
                    cr,
                ),
            decreases self.created.len() - i,
        {
            proof {
                assert(cr.skip(i as int)[0] == cr[i as int]);
                assert(cr.skip(i as int).drop_first() =~= cr.skip(i + 1));
            }
            let (k, v) = &self.created[i];
            if !key_line_present(out.as_str(), k.as_str()) {
                with_newline_exec(&mut out);
                out.append(k.as_str());
                out.append(": ");
                out.append(v.as_str());
                out.append("\n");
            }
            i += 1;
        }
        proof {
            assert(cr.skip(self.created.len() as int) =~= Seq::<(Seq<char>, Seq<char>)>::empty());
        }
        let ghost after_created = out@;
        let ghost cf = kv_view(self.config@);
        let mut j: usize = 0;
        proof {
            assert(cf.skip(0) =~= cf);
        }
        while j < self.config.len()
            invariant
                j <= self.config.len(),
                cf == kv_view(self.config@),
                set_config(out@, cf.skip(j as int)) == set_config(after_created, cf),
            decreases self.config.len() - j,
        {
            proof {
                assert(cf.skip(j as int)[0] == cf[j as int]);
                assert(cf.skip(j as int).drop_first() =~= cf.skip(j + 1));
            }
            let (k, v) = &self.config[j];
            let mut next = drop_key_lines(out.as_str(), k.as_str());
            with_newline_exec(&mut next);
            next.append(k.as_str());
            next.append(": ");
            next.append(v.as_str());
            next.append("\n");
            out = next;
            j += 1;
        }
        proof {
            assert(cf.skip(self.config.len() as int) =~= Seq::<(Seq<char>, Seq<char>)>::empty());
        }
        out
    }

    fn sha_text(&self, r: &str) -> (out: String)
        ensures
            out@ == sha_lines(self.state().pushed, r@),
    {
        let ghost pv = kv_view(self.pushed@);
        let mut out = String::new();
        let mut i: usize = 0;
        while i < self.pushed.len()
            invariant
                i <= self.pushed.len(),
                pv == kv_view(self.pushed@),
                out@ == sha_lines(pv.take(i as int), r@),
            decreases self.pushed.len() - i,
        {
            proof {
                assert(pv.take(i + 1).drop_last() =~= pv.take(i as int));
                assert(pv.take(i + 1).last() == pv[i as int]);
            }
            let (path, content) = &self.pushed[i];
            if str_contains(r, path.as_str()) {
                let h = sha256_hex(content.as_str().as_bytes());
                out.append(h.as_str());
                out.append("  ");
                out.append(path.as_str());
                out.append("\n");
            }
            i += 1;
        }
        proof {
            assert(pv.take(self.pushed.len() as int) =~= pv);
        }
        out
    }

    fn respond(&mut self, cmd: &Cmd, r: &str) -> (o: CmdOutput)
        ensures
            (final(self).state(), o@) == answer(old(self).state(), cmd.program@, string_views(cmd.args@), r@),
    {
        let ghost s0 = self.state();
        let ghost a = string_views(cmd.args@);
        if let Some(q) = rule_find(&self.queue, r) {
            let (_, out) = self.queue.remove(q);
            proof {
                assert(rules_view(self.queue@) =~= s0.queue.remove(q as int));
                assert(self.state() =~= MockState { queue: s0.queue.remove(q as int), ..s0 });
                assert(s0.queue[q as int].1 == out@);
            }
            return out;
        }
        let is_config = str_eq(cmd.program.as_str(), "pct") && cmd.args.len() > 0 && str_eq(cmd.args[0].as_str(), "config");
        proof {
            if cmd.args.len() > 0 {
                assert(a[0] == cmd.args@[0]@);
            }
        }
        if is_config && (self.config.len() > 0 || self.created.len() > 0) {
            let t = self.config_text(r);
            return CmdOutput::ok(t.as_str());
        }
        if let Some(i) = rule_find(&self.always, r) {
            proof {
                assert(s0.always[i as int].1 == self.always@[i as int].1@);
            }
            return clone_output(&self.always[i].1);
        }
        if str_contains(r, "sha256sum") {
            let t = self.sha_text(r);
            if t.unicode_len() > 0 {
                return CmdOutput::ok(t.as_str());
            }
        }
        proof {
            assert(self.state() == s0);
            assert(rule_index(s0.queue, r@) < 0);
            assert(rule_index(s0.always, r@) < 0);
            assert(!(cmd.program@ == "pct"@ && first_arg_is(a, "config"@) && (s0.config.len() > 0 || s0.created.len() > 0)));
            assert(!(contains(r@, "sha256sum"@) && sha_lines(s0.pushed, r@).len() > 0));
        }
        let o = CmdOutput::ok("");
        proof {
            reveal_strlit("");
            assert(o@.stdout =~= Seq::<char>::empty());
            assert(o@ == ok_view(Seq::empty()));
        }
        o
    }
}

/// One thing asked of an executor, as plain values.
pub enum Request {
    /// A command: program, arguments, timeout.
    Run(Seq<char>, Seq<Seq<char>>, u64),
    /// A file written: path, content, mode.
    WriteFile(Seq<char>, Seq<char>, u32),
    /// A file read: its path.
    ReadFile(Seq<char>),
    /// A pause, in milliseconds.
    Sleep(u64),
}

/// The request a command is.
pub open spec fn run_request(c: Cmd) -> Request {
    Request::Run(c.program@, string_views(c.args@), c.timeout_s)
}

/// All side effects. `write_file` must be atomic (temporary file, then
/// rename). Implemented by the host over real processes and files, and here
/// by [`MockExecutor`]. Each call is one request, recorded in order by
/// `requests`: what an operation asked of the machine can then be stated
/// about the operation.
pub trait Executor {
    /// What this executor has been asked to do so far, in order.
    spec fn requests(&self) -> Seq<Request>;

    /// What each request answered, in the same order: a command's output,
    /// `None` for a command that could not be run and for every other kind
    /// of request.
    spec fn replies(&self) -> Seq<Option<OutputView>>;

    /// Run a command; `Ok` even when the command exits non-zero — the caller
    /// decides what a failure means. `Err` is for spawn failures and timeouts.
    fn run(&mut self, cmd: &Cmd) -> (r: Result<CmdOutput, CoreError>)
        ensures
            final(self).requests() == old(self).requests().push(run_request(*cmd)),
            final(self).replies() == old(self).replies().push(reply_of(r)),
    ;

    /// Atomically write a host-local file with the given mode.
    fn write_file(&mut self, path: &str, content: &str, mode: u32) -> (r: Result<(), CoreError>)
        ensures
            final(self).requests() == old(self).requests().push(Request::WriteFile(path@, content@, mode)),
            final(self).replies() == old(self).replies().push(None),
    ;

    /// Read a host-local file; `Err` when it does not exist.
    fn read_file(&mut self, path: &str) -> (r: Result<String, CoreError>)
        ensures
            final(self).requests() == old(self).requests().push(Request::ReadFile(path@)),
            final(self).replies() == old(self).replies().push(None),
    ;

    /// Sleep — routed through here so tests run instantly.
    fn sleep_ms(&mut self, ms: u64)
        ensures
            final(self).requests() == old(self).requests().push(Request::Sleep(ms)),
            final(self).replies() == old(self).replies().push(None),
    ;
}

/// What a command answered, as the executor's record keeps it: its output,
/// or nothing when it could not be run.
pub open spec fn reply_of(r: Result<CmdOutput, CoreError>) -> Option<OutputView> {
    match r {
        Ok(o) => Some(o@),
        Err(_) => None,
    }
}

/// The machine's side effects as a host provides them: the same four calls
/// as [`Executor`], with nothing recorded. A host implements this and runs
/// operations through [`Host`], which keeps the record.
pub trait HostCalls {
    fn run(&mut self, cmd: &Cmd) -> Result<CmdOutput, CoreError>;

    fn write_file(&mut self, path: &str, content: &str, mode: u32) -> Result<(), CoreError>;

    fn read_file(&mut self, path: &str) -> Result<String, CoreError>;

    fn sleep_ms(&mut self, ms: u64);
}

/// A host's calls as an [`Executor`]: every call is passed on unchanged
/// and recorded as a request.
pub struct Host<H: HostCalls> {
    calls: H,
    asked: Ghost<Seq<Request>>,
    heard: Ghost<Seq<Option<OutputView>>>,
}

impl<H: HostCalls> Host<H> {
    pub fn new(calls: H) -> (r: Self)
        ensures
            r.requests() == Seq::<Request>::empty(),
            r.replies() == Seq::<Option<OutputView>>::empty(),
    {
        Host { calls, asked: Ghost(Seq::empty()), heard: Ghost(Seq::empty()) }
    }

    /// The host's calls, back.
    pub fn into_inner(self) -> H {
        self.calls
    }
}

impl<H: HostCalls> Executor for Host<H> {
    closed spec fn requests(&self) -> Seq<Request> {
        self.asked@
    }

    closed spec fn replies(&self) -> Seq<Option<OutputView>> {
        self.heard@
    }

    fn run(&mut self, cmd: &Cmd) -> (r: Result<CmdOutput, CoreError>) {
        proof {
            self.asked@ = self.asked@.push(run_request(*cmd));
        }
        let r = self.calls.run(cmd);
        proof {
            self.heard@ = self.heard@.push(reply_of(r));
        }
        r
    }

    fn write_file(&mut self, path: &str, content: &str, mode: u32) -> (r: Result<(), CoreError>) {
        proof {
            self.asked@ = self.asked@.push(Request::WriteFile(path@, content@, mode));
            self.heard@ = self.heard@.push(None);
        }
        self.calls.write_file(path, content, mode)
    }

    fn read_file(&mut self, path: &str) -> (r: Result<String, CoreError>) {
        proof {
            self.asked@ = self.asked@.push(Request::ReadFile(path@));
            self.heard@ = self.heard@.push(None);
        }
        self.calls.read_file(path)
    }

    fn sleep_ms(&mut self, ms: u64) {
        proof {
            self.asked@ = self.asked@.push(Request::Sleep(ms));
            self.heard@ = self.heard@.push(None);
        }
        self.calls.sleep_ms(ms)
    }
}

impl Executor for MockExecutor {
    closed spec fn requests(&self) -> Seq<Request> {
        self.asked@
    }

    closed spec fn replies(&self) -> Seq<Option<OutputView>> {
        self.heard@
    }

    fn run(&mut self, cmd: &Cmd) -> (r: Result<CmdOutput, CoreError>)
        ensures
            r matches Ok(o) && (final(self).state(), o@) == mock_run(
                old(self).state(),
                cmd.program@,
                string_views(cmd.args@),
                cmd.timeout_s,
            ),
    {
        let ghost before = self.asked@;
        let ghost before_heard = self.heard@;
        let r = MockExecutor::run(self, cmd);
        proof {
            self.asked@ = before.push(run_request(*cmd));
            self.heard@ = before_heard.push(reply_of(r));
        }
        r
    }

    fn write_file(&mut self, path: &str, content: &str, mode: u32) -> (r: Result<(), CoreError>)
        ensures
            r is Ok,
            final(self).fs() == file_insert(old(self).fs(), path@, content@, mode),
            final(self).call_log() == old(self).call_log().push(
                "write_file "@ + path@ + " (mode "@ + radix(mode as nat, 8) + ")"@,
            ),
    {
        let ghost before = self.asked@;
        let ghost before_heard = self.heard@;
        let r = MockExecutor::write_file(self, path, content, mode);
        proof {
            self.asked@ = before.push(Request::WriteFile(path@, content@, mode));
            self.heard@ = before_heard.push(None);
        }
        r
    }

    fn read_file(&mut self, path: &str) -> (r: Result<String, CoreError>)
        ensures
            final(self).state() == old(self).state(),
            file_index(old(self).fs(), path@) >= 0 ==> (r matches Ok(c) && c@ == old(self).fs()[file_index(
                old(self).fs(),
                path@,
            )].1),
            file_index(old(self).fs(), path@) < 0 ==> (r matches Err(CoreError::State(m)) && m@
                == "no such file: "@ + path@),
    {
        let r = MockExecutor::read_file(self, path);
        proof {
            self.asked@ = self.asked@.push(Request::ReadFile(path@));
            self.heard@ = self.heard@.push(None);
        }
        r
    }

    /// Returns at once: tests do not wait.
    fn sleep_ms(&mut self, ms: u64)
        ensures
            final(self).state() == old(self).state(),
    {
        proof {
            self.asked@ = self.asked@.push(Request::Sleep(ms));
            self.heard@ = self.heard@.push(None);
        }
    }
}

/// `q2`/`h2` is the record `q1`/`h1` with more requests after it, each
/// with its reply.
pub open spec fn extends(
    q1: Seq<Request>,
    h1: Seq<Option<OutputView>>,
    q2: Seq<Request>,
    h2: Seq<Option<OutputView>>,
) -> bool {
    &&& q1.len() <= q2.len()
    &&& q2.take(q1.len() as int) == q1
    &&& h1.len() <= h2.len()
    &&& h2.take(h1.len() as int) == h1
    &&& h2.len() - h1.len() == q2.len() - q1.len()
}

pub proof fn lemma_extends_refl(q: Seq<Request>, h: Seq<Option<OutputView>>)
    ensures
        extends(q, h, q, h),
{
    assert(q.take(q.len() as int) =~= q);
    assert(h.take(h.len() as int) =~= h);
}

pub proof fn lemma_extends_trans(
    q1: Seq<Request>,
    h1: Seq<Option<OutputView>>,
    q2: Seq<Request>,
    h2: Seq<Option<OutputView>>,
    q3: Seq<Request>,
    h3: Seq<Option<OutputView>>,
)
    requires
        extends(q1, h1, q2, h2),
        extends(q2, h2, q3, h3),
    ensures
        extends(q1, h1, q3, h3),
{
    assert(q3.take(q1.len() as int) =~= q1) by {
        assert forall|k: int| 0 <= k < q1.len() implies q3.take(q1.len() as int)[k] == q1[k] by {
            assert(q3.take(q2.len() as int)[k] == q3[k]);
            assert(q2.take(q1.len() as int)[k] == q2[k]);
        }
    }
    assert(h3.take(h1.len() as int) =~= h1) by {
        assert forall|k: int| 0 <= k < h1.len() implies h3.take(h1.len() as int)[k] == h1[k] by {
            assert(h3.take(h2.len() as int)[k] == h3[k]);
            assert(h2.take(h1.len() as int)[k] == h2[k]);
        }
    }
}

/// One request pushed, with its reply.
pub proof fn lemma_pushed(q1: Seq<Request>, h1: Seq<Option<OutputView>>, x: Request, y: Option<OutputView>)
    ensures
        extends(q1, h1, q1.push(x), h1.push(y)),
{
    assert(q1.push(x).take(q1.len() as int) =~= q1);
    assert(h1.push(y).take(h1.len() as int) =~= h1);
}

/// One request more, with one reply more.
pub proof fn lemma_one_more(
    q1: Seq<Request>,
    h1: Seq<Option<OutputView>>,
    q2: Seq<Request>,
    h2: Seq<Option<OutputView>>,
)
    requires
        q2 == q1.push(q2.last()) || (q2.len() == q1.len() + 1 && q2.drop_last() == q1),
        h2 == h1.push(h2.last()) || (h2.len() == h1.len() + 1 && h2.drop_last() == h1),
    ensures
        extends(q1, h1, q2, h2),
{
    assert(q2.take(q1.len() as int) =~= q1);
    assert(h2.take(h1.len() as int) =~= h1);
}

/// What a command's result means when it must succeed: the output when its
/// code is 0, otherwise a command error naming it, its code and its stderr.
pub open spec fn success_required(rendered: Seq<char>, o: OutputView) -> Result<OutputView, (Seq<char>, Seq<char>)> {
    if o.code == 0 {
        Ok(o)
    } else {
        Err((rendered, "rc="@ + dec_int(o.code as int) + " :: "@ + trimmed(o.stderr)))
    }
}

/// The output when it succeeded, else `CoreError::Command`.
pub fn require_success(cmd: &Cmd, out: CmdOutput) -> (r: Result<CmdOutput, CoreError>)
    ensures
        match success_required(rendering(cmd.program@, string_views(cmd.args@)), out@) {
            Ok(o) => r matches Ok(x) && x@ == o,
            Err((c, d)) => r matches Err(CoreError::Command { rendered, detail }) && rendered@ == c
                && detail@ == d,
        },
{
    if out.success() {
        Ok(out)
    } else {
        let mut detail = String::from_str("rc=");
        let code = dec_string_i64(out.code as i64);
        detail.append(code.as_str());
        detail.append(" :: ");
        detail.append(trim(out.stderr.as_str()));
        Err(CoreError::Command { rendered: cmd.rendered(), detail })
    }
}

/// Run and require success. An error from the executor passes through
/// unchanged.
/// The record ends on a request that can fail and did not succeed: a
/// command that could not run or exited non-zero, or a file operation
/// (whose outcome the record does not show).
pub open spec fn ended_on_failure(q: Seq<Request>, h: Seq<Option<OutputView>>) -> bool {
    &&& q.len() > 0
    &&& h.len() > 0
    &&& !(q.last() is Sleep)
    &&& !(h.last() matches Some(o) && o.code == 0)
}

/// Every reply in `from..to` is a command that ran and exited zero.
pub open spec fn replies_succeeded(h: Seq<Option<OutputView>>, from: int, to: int) -> bool {
    forall|k: int| from <= k < to ==> (#[trigger] h[k] matches Some(o) && o.code == 0)
}

/// Some reply in `from..to` is not a command that ran and exited zero.
pub open spec fn some_failed(h: Seq<Option<OutputView>>, from: int, to: int) -> bool {
    exists|j: int| from <= j < to && !(#[trigger] h[j] matches Some(o) && o.code == 0)
}

/// A failed reply stays failed as replies are added.
pub proof fn lemma_some_failed_grows(h1: Seq<Option<OutputView>>, h2: Seq<Option<OutputView>>, from: int, to: int)
    requires
        0 <= from,
        some_failed(h1, from, to),
        to <= h1.len() <= h2.len(),
        h2.take(h1.len() as int) == h1,
    ensures
        some_failed(h2, from, h2.len() as int),
{
    let w = choose|j: int| from <= j < to && !(#[trigger] h1[j] matches Some(o) && o.code == 0);
    assert(h2.take(h1.len() as int)[w] == h2[w]);
}

pub fn run_ok<E: Executor>(exec: &mut E, cmd: &Cmd) -> (r: Result<CmdOutput, CoreError>)
    ensures
        final(exec).requests() == old(exec).requests().push(run_request(*cmd)),
        final(exec).replies().len() == old(exec).replies().len() + 1,
        final(exec).replies().drop_last() == old(exec).replies(),
        r matches Ok(o) ==> o.code == 0 && final(exec).replies().last() == Some(o@),
        r is Err ==> ended_on_failure(final(exec).requests(), final(exec).replies()),
{
    let ghost h0 = exec.replies();
    let r = match exec.run(cmd) {
        Ok(out) => require_success(cmd, out),
        Err(e) => Err(e),
    };
    proof {
        assert(exec.replies().drop_last() =~= h0);
    }
    r
}

/// The command that runs a shell script inside container `vmid`.
pub open spec fn pct_sh_args(vmid: u16, script: Seq<char>) -> Seq<Seq<char>> {
    seq!["exec"@, dec(vmid as nat), "--"@, "sh"@, "-c"@, script]
}

pub fn pct_sh_cmd(vmid: u16, script: &str, timeout_s: u64) -> (c: Cmd)
    ensures
        c.program@ == "pct"@,
        string_views(c.args@) == pct_sh_args(vmid, script@),
        c.timeout_s == timeout_s,
{
    let vm = dec_string(vmid as u64);
    let c = Cmd::new("pct", &["exec", vm.as_str(), "--", "sh", "-c", script], timeout_s);
    proof {
        assert(string_views(c.args@) =~= pct_sh_args(vmid, script@));
    }
    c
}

/// Run a shell script inside a container via `pct exec`.
pub fn pct_sh<E: Executor>(exec: &mut E, vmid: u16, script: &str, timeout_s: u64) -> (r: Result<CmdOutput, CoreError>)
    ensures
        final(exec).requests() == old(exec).requests().push(Request::Run("pct"@, pct_sh_args(vmid, script@), timeout_s)),
        final(exec).replies() == old(exec).replies().push(reply_of(r)),
{
    let c = pct_sh_cmd(vmid, script, timeout_s);
    exec.run(&c)
}

/// The output lines a trace shows, from lines already cut to at most twenty:
/// the blank ones dropped, the others indented by two spaces.
pub open spec fn shown(ls: Seq<Seq<char>>) -> Seq<Seq<char>>
    decreases ls.len(),
{
    if ls.len() == 0 {
        Seq::empty()
    } else {
        let pre = shown(ls.drop_last());
        if trimmed(ls.last()).len() > 0 {
            pre.push("  "@ + ls.last())
        } else {
            pre
        }
    }
}

/// The first twenty lines of stdout then stderr.
pub open spec fn first_twenty(stdout: Seq<char>, stderr: Seq<char>) -> Seq<Seq<char>> {
    let all = lines_of(stdout) + lines_of(stderr);
    if all.len() <= 20 {
        all
    } else {
        all.take(20)
    }
}

/// What a trace shows of one command's output.
pub open spec fn trace_lines(stdout: Seq<char>, stderr: Seq<char>) -> Seq<Seq<char>> {
    shown(first_twenty(stdout, stderr))
}

/// The line that announces a command.
pub open spec fn run_line(cmd: Cmd) -> Seq<char> {
    "[run ] "@ + rendering(cmd.program@, string_views(cmd.args@))
}

/// An executor that puts every command, and what it printed, into the
/// transcript: each as a `Debug` line from `HOST`. Everything else passes
/// straight through to the executor it wraps.
pub struct TracingExecutor<E: Executor, S: Sink> {
    inner: E,
    sink: S,
    /// The messages emitted so far.
    traced: Ghost<Seq<Seq<char>>>,
}

impl<E: Executor, S: Sink> TracingExecutor<E, S> {
    /// The transcript messages this executor has emitted.
    pub closed spec fn traced(&self) -> Seq<Seq<char>> {
        self.traced@
    }

    pub fn new(inner: E, sink: S) -> (r: Self)
        ensures
            r.traced() == Seq::<Seq<char>>::empty(),
    {
        TracingExecutor { inner, sink, traced: Ghost(Seq::empty()) }
    }

    /// The executor and the sink, back.
    pub fn into_parts(self) -> (E, S) {
        (self.inner, self.sink)
    }

    fn line(&mut self, msg: String)
        ensures
            final(self).traced() == old(self).traced().push(msg@),
            final(self).inner == old(self).inner,
    {
        proof {
            self.traced@ = self.traced@.push(msg@);
        }
        self.sink.emit(PipelineEvent::Line { level: Level::Debug, source: String::from_str("HOST"), msg });
    }

    fn trace_output(&mut self, out: &CmdOutput)
        ensures
            final(self).traced() == old(self).traced() + trace_lines(out.stdout@, out.stderr@),
            final(self).inner == old(self).inner,
    {
        let a = lines(out.stdout.as_str());
        let b = lines(out.stderr.as_str());
        let ghost all = lines_of(out.stdout@) + lines_of(out.stderr@);
        let ghost start = self.traced@;
        let stop: usize = if a.len() >= 20 || b.len() >= 20 - a.len() {
            20
        } else {
            a.len() + b.len()
        };
        proof {
            assert(first_twenty(out.stdout@, out.stderr@) =~= all.take(stop as int));
            assert(all.take(0) =~= Seq::<Seq<char>>::empty());
            assert(start + shown(all.take(0)) =~= start);
        }
        let mut i: usize = 0;
        while i < stop
            invariant
                i <= stop,
                stop <= a.len() + b.len(),
                all == views(a@) + views(b@),
                self.traced@ == start + shown(all.take(i as int)),
                self.inner == old(self).inner,
            decreases stop - i,
        {
            let l: &str = if i < a.len() { a[i] } else { b[i - a.len()] };
            proof {
                assert(l@ == all[i as int]);
                assert(all.take(i + 1).drop_last() =~= all.take(i as int));
                assert(all.take(i + 1).last() == l@);
            }
            if trim(l).unicode_len() > 0 {
                let mut msg = String::from_str("  ");
                msg.append(l);
                self.line(msg);
                proof {
                    assert(self.traced@ =~= start + shown(all.take(i + 1)));
                }
            } else {
                proof {
                    assert(shown(all.take(i + 1)) == shown(all.take(i as int)));
                }
            }
            i += 1;
        }
    }
}

impl<E: Executor, S: Sink> Executor for TracingExecutor<E, S> {
    closed spec fn requests(&self) -> Seq<Request> {
        self.inner.requests()
    }

    closed spec fn replies(&self) -> Seq<Option<OutputView>> {
        self.inner.replies()
    }

    /// Announces the command, runs it, and on success shows up to twenty
    /// non-blank lines of what it printed.
    fn run(&mut self, cmd: &Cmd) -> (r: Result<CmdOutput, CoreError>)
        ensures
            match r {
                Ok(o) => final(self).traced() == old(self).traced().push(run_line(*cmd)) + trace_lines(
                    o.stdout@,
                    o.stderr@,
                ),
                Err(_) => final(self).traced() == old(self).traced().push(run_line(*cmd)),
            },
    {
        let mut head = String::from_str("[run ] ");
        let rendered = cmd.rendered();
        head.append(rendered.as_str());
        self.line(head);
        match self.inner.run(cmd) {
            Ok(out) => {
                self.trace_output(&out);
                Ok(out)
            },
            Err(e) => Err(e),
        }
    }

    fn write_file(&mut self, path: &str, content: &str, mode: u32) -> (r: Result<(), CoreError>)
        ensures
            final(self).traced() == old(self).traced(),
    {
        self.inner.write_file(path, content, mode)
    }

    fn read_file(&mut self, path: &str) -> (r: Result<String, CoreError>)
        ensures
            final(self).traced() == old(self).traced(),
    {
        self.inner.read_file(path)
    }

    fn sleep_ms(&mut self, ms: u64)
        ensures
            final(self).traced() == old(self).traced(),
    {
        self.inner.sleep_ms(ms)
    }
}

} // verus!
