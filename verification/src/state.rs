//! Host state: typed documents with a schema version. Reading and writing
//! the file (atomically, through the machine) is the caller's part; what is
//! decided about a document that was read, and what a document holds, is
//! here.
//!
//! The maps of the document (stacks by name, manual checks by id) are kept
//! as lists of pairs in ascending key order, which is the order a reader of
//! the document sees them in.

use vstd::prelude::*;
use vstd::string::*;
use crate::error::CoreError;
use crate::manifest::StackManifest;
use crate::native::NativeServiceManifest;
use crate::text::{dec, dec_string, str_eq, str_le, str_lt, string_views};

pub use crate::keyed::ascending;

verus! {

pub const STATE_SCHEMA_VERSION: u32 = 1;

#[derive(Debug, Clone)]
pub struct StackState {
    pub vmid: u16,
    pub hostname: String,
    pub apps: Vec<String>,
    /// Set by the caller — this library never reads a clock.
    pub applied_at: u64,
    /// Unix time of the last successful backup.
    pub last_backup: u64,
    /// Fingerprint of the intent that was last applied.
    pub applied_hash: String,
    /// Full manifest as last applied, so host-side operations can run
    /// without the client being connected.
    pub manifest: Option<StackManifest>,
    /// Gates the nightly scheduler for this stack; switched off when a
    /// nightly run fails.
    pub enabled: bool,
    /// Legacy single-service field, kept only so older state still loads;
    /// loading moves it into `natives`.
    pub native: Option<NativeServiceManifest>,
    /// Native services on this stack (bare binaries under systemd).
    pub natives: Vec<NativeServiceManifest>,
    /// The step a deploy stopped at, or None when it ran to the end.
    pub incomplete_step: Option<String>,
}

/// The units of a list of native services.
pub open spec fn units(v: Seq<NativeServiceManifest>) -> Seq<Seq<char>> {
    v.map_values(|n: NativeServiceManifest| n.unit@)
}

/// `new` is `old` with its legacy single-service field folded into the
/// list: added unless a service with the same unit is already there.
pub open spec fn migrated(old: StackState, new: StackState) -> bool {
    &&& new.native is None
    &&& new.vmid == old.vmid
    &&& new.hostname == old.hostname
    &&& new.apps == old.apps
    &&& new.applied_at == old.applied_at
    &&& new.last_backup == old.last_backup
    &&& new.applied_hash == old.applied_hash
    &&& new.enabled == old.enabled
    &&& new.incomplete_step == old.incomplete_step
    &&& new.manifest == old.manifest
    &&& match old.native {
        Some(one) => if units(old.natives@).contains(one.unit@) {
            new.natives@ == old.natives@
        } else {
            new.natives@ == old.natives@.push(one)
        },
        None => new.natives@ == old.natives@,
    }
}

/// Folding the legacy field in is idempotent: a second fold changes nothing.
pub proof fn law_migrate_idempotent(a: StackState, b: StackState, c: StackState)
    requires
        migrated(a, b),
        migrated(b, c),
    ensures
        c.natives@ == b.natives@,
        c.native == b.native,
{
}

impl StackState {
    /// Fold the legacy single-service field into the list, unless a service
    /// with the same unit is already there. Idempotent.
    pub fn migrate_natives(&mut self)
        ensures
            migrated(*old(self), *final(self)),
    {
        if let Some(one) = self.native.take() {
            let mut found = false;
            let mut i: usize = 0;
            while i < self.natives.len()
                invariant
                    i <= self.natives.len(),
                    found == (exists|k: int| 0 <= k < i && self.natives@[k].unit@ == one.unit@),
                decreases self.natives.len() - i,
            {
                if str_eq(self.natives[i].unit.as_str(), one.unit.as_str()) {
                    found = true;
                }
                i += 1;
            }
            proof {
                if found {
                    let k = choose|k: int| 0 <= k < i && self.natives@[k].unit@ == one.unit@;
                    assert(units(self.natives@)[k] == one.unit@);
                } else {
                    assert forall|k: int| 0 <= k < units(self.natives@).len() implies units(
                        self.natives@,
                    )[k] != one.unit@ by {
                        assert(self.natives@[k].unit@ != one.unit@);
                    }
                }
            }
            if !found {
                self.natives.push(one);
            }
        }
    }

    /// True for a stack supervised as systemd units.
    pub fn is_native(&self) -> (r: bool)
        ensures
            r == (self.natives@.len() > 0),
    {
        self.natives.len() > 0
    }
}

/// A stack is scheduled unless something switched it off.
pub fn enabled_default() -> (r: bool)
    ensures
        r,
{
    true
}

/// One thing only a person can confirm, and the last word on it.
#[derive(Debug, Clone, PartialEq, Eq)]
pub struct ManualCheckRecord {
    pub stack: String,
    pub app: String,
    /// The question, verbatim from the checks file.
    pub text: String,
    /// First time a deploy printed it.
    pub registered_at: u64,
    /// Unix time of the last answer. None = nobody has ever answered.
    pub answered_at: Option<u64>,
    /// What the answer was. None while unanswered.
    pub ok: Option<bool>,
    /// Whatever the person wanted to add. Empty is normal.
    pub note: String,
}

/// A manual check as plain values.
pub struct RecordView {
    pub stack: Seq<char>,
    pub app: Seq<char>,
    pub text: Seq<char>,
    pub registered_at: u64,
    pub answered_at: Option<u64>,
    pub ok: Option<bool>,
    pub note: Seq<char>,
}

impl View for ManualCheckRecord {
    type V = RecordView;

    open spec fn view(&self) -> RecordView {
        RecordView {
            stack: self.stack@,
            app: self.app@,
            text: self.text@,
            registered_at: self.registered_at,
            answered_at: self.answered_at,
            ok: self.ok,
            note: self.note@,
        }
    }
}

pub fn clone_record(r: &ManualCheckRecord) -> (c: ManualCheckRecord)
    ensures
        c@ == r@,
{
    ManualCheckRecord {
        stack: r.stack.clone(),
        app: r.app.clone(),
        text: r.text.clone(),
        registered_at: r.registered_at,
        answered_at: r.answered_at,
        ok: r.ok,
        note: r.note.clone(),
    }
}

#[derive(Debug, Clone)]
pub struct HostState {
    pub schema_version: u32,
    /// Stacks by name, in ascending name order.
    pub stacks: Vec<(String, StackState)>,
    /// Unix time of the last successful host-meta snapshot (0 = never).
    pub last_host_meta: u64,
    /// Unix time of the last successful ZFS snapshot and replication run.
    pub last_zfs: u64,
    /// The checks only a person can answer, by id, in ascending id order.
    pub manual_checks: Vec<(String, ManualCheckRecord)>,
    /// Unix time of the last notification that actually arrived.
    pub last_notify_ok: u64,
    /// Unix time of the last one that reached no route at all.
    pub last_notify_failed: u64,
    /// What the last failure said.
    pub last_notify_error: Option<String>,
    /// Unix time of the last restore drill that proved something.
    pub last_restore_drill: u64,
    /// Which repository that was.
    pub last_restore_drill_repo: String,
    /// Why the last drill proved nothing. None = it did.
    pub last_restore_drill_error: Option<String>,
    /// Round-robin cursor over the repositories.
    pub restore_drill_index: usize,
}


pub open spec fn stack_names(v: Seq<(String, StackState)>) -> Seq<Seq<char>> {
    v.map_values(|p: (String, StackState)| p.0@)
}

pub open spec fn check_ids(v: Seq<(String, ManualCheckRecord)>) -> Seq<Seq<char>> {
    v.map_values(|p: (String, ManualCheckRecord)| p.0@)
}

/// The manual checks as a map from id to record.
pub open spec fn checks_map(v: Seq<(String, ManualCheckRecord)>) -> Map<Seq<char>, RecordView>
    decreases v.len(),
{
    if v.len() == 0 {
        Map::empty()
    } else {
        checks_map(v.drop_last()).insert(v.last().0@, v.last().1@)
    }
}

impl HostState {
    /// Each map is kept in ascending key order.
    pub open spec fn wf(&self) -> bool {
        &&& ascending(stack_names(self.stacks@))
        &&& ascending(check_ids(self.manual_checks@))
    }

    /// The state of a stack, by name.
    pub fn stack(&self, name: &str) -> (r: Option<&StackState>)
        requires
            self.wf(),
        ensures
            match r {
                Some(st) => exists|i: int|
                    0 <= i < self.stacks@.len() && self.stacks@[i].0@ == name@ && self.stacks@[i].1
                        == *st,
                None => !stack_names(self.stacks@).contains(name@),
            },
    {
        let mut i: usize = 0;
        while i < self.stacks.len()
            invariant
                i <= self.stacks.len(),
                forall|k: int| 0 <= k < i ==> self.stacks@[k].0@ != name@,
            decreases self.stacks.len() - i,
        {
            if str_eq(self.stacks[i].0.as_str(), name) {
                return Some(&self.stacks[i].1);
            }
            i += 1;
        }
        proof {
            assert forall|k: int| 0 <= k < stack_names(self.stacks@).len() implies stack_names(
                self.stacks@,
            )[k] != name@ by {
                assert(self.stacks@[k].0@ != name@);
            }
        }
        None
    }
}

impl Default for HostState {
    fn default() -> (r: Self)
        ensures
            r.wf(),
            r.schema_version == 0,
            r.stacks@.len() == 0,
            r.manual_checks@.len() == 0,
            r.last_host_meta == 0,
            r.last_zfs == 0,
            r.last_notify_ok == 0,
            r.last_notify_failed == 0,
            r.last_notify_error is None,
            r.last_restore_drill == 0,
            r.last_restore_drill_repo@ == Seq::<char>::empty(),
            r.last_restore_drill_error is None,
            r.restore_drill_index == 0,
    {
        let r = HostState {
            schema_version: 0,
            stacks: Vec::new(),
            last_host_meta: 0,
            last_zfs: 0,
            manual_checks: Vec::new(),
            last_notify_ok: 0,
            last_notify_failed: 0,
            last_notify_error: None,
            last_restore_drill: 0,
            last_restore_drill_repo: String::new(),
            last_restore_drill_error: None,
            restore_drill_index: 0,
        };
        proof {
            assert(stack_names(r.stacks@) =~= Seq::<Seq<char>>::empty());
            assert(check_ids(r.manual_checks@) =~= Seq::<Seq<char>>::empty());
        }
        r
    }
}

/// Where the state document lives, and what is decided about one that was
/// read. The reading and writing themselves are done by the caller.
pub struct StateStore {
    path: String,
}

impl StateStore {
    pub closed spec fn path_view(&self) -> Seq<char> {
        self.path@
    }

    pub fn new(state_dir: &str) -> (r: Self)
        ensures
            r.path_view() == state_dir@ + "/state.json"@,
    {
        let mut path = String::from_str(state_dir);
        path.append("/state.json");
        StateStore { path }
    }

    pub fn path(&self) -> (r: &str)
        ensures
            r@ == self.path_view(),
    {
        self.path.as_str()
    }

    /// Where an unparseable document is preserved before loading fails.
    pub fn quarantine_path(&self) -> (r: String)
        ensures
            r@ == self.path_view() + ".corrupt"@,
    {
        let mut q = self.path.clone();
        q.append(".corrupt");
        q
    }

    /// A document that parsed: refused when its schema is newer than this
    /// library understands (touching it could lose what it does not know);
    /// otherwise the legacy native-service field of every stack is folded
    /// into the list.
    pub fn accept(&self, state: HostState) -> (r: Result<HostState, CoreError>)
        ensures
            state.schema_version > STATE_SCHEMA_VERSION ==> (r matches Err(CoreError::State(m))
                && m@ == "state.json schema v"@ + dec(state.schema_version as nat)
                + " is newer than this binary understands (v"@ + dec(STATE_SCHEMA_VERSION as nat)
                + ") — refusing to touch it; update the host binary. File: "@
                + self.path_view()),
            state.schema_version <= STATE_SCHEMA_VERSION ==> (r matches Ok(s) && s.stacks@.len()
                == state.stacks@.len() && stack_names(s.stacks@) == stack_names(state.stacks@)
                && (forall|i: int|
                0 <= i < s.stacks@.len() ==> migrated(state.stacks@[i].1, #[trigger] s.stacks@[i].1))
                && s.manual_checks == state.manual_checks && s.schema_version
                == state.schema_version),
    {
        if state.schema_version > STATE_SCHEMA_VERSION {
            let mut m = String::from_str("state.json schema v");
            let d = dec_string(state.schema_version as u64);
            m.append(d.as_str());
            m.append(" is newer than this binary understands (v");
            let d = dec_string(STATE_SCHEMA_VERSION as u64);
            m.append(d.as_str());
            m.append(") — refusing to touch it; update the host binary. File: ");
            m.append(self.path.as_str());
            return Err(CoreError::State(m));
        }
        let mut state = state;
        let ghost names = stack_names(state.stacks@);
        let ghost before = state.stacks@;
        let mut stacks: Vec<(String, StackState)> = Vec::new();
        let mut rest: Vec<(String, StackState)> = Vec::new();
        std::mem::swap(&mut rest, &mut state.stacks);
        let ghost orig = rest@;
        while rest.len() > 0
            invariant
                stacks@.len() + rest@.len() == orig.len(),
                rest@ == orig.subrange(stacks@.len() as int, orig.len() as int),
                names == stack_names(orig),
                forall|k: int| 0 <= k < stacks@.len() ==> (#[trigger] stacks@[k]).0@ == orig[k].0@,
                forall|k: int| 0 <= k < stacks@.len() ==> migrated(orig[k].1, #[trigger] stacks@[k].1),
            decreases rest@.len(),
        {
            let mut entry = rest.remove(0);
            entry.1.migrate_natives();
            stacks.push(entry);
        }
        proof {
            assert(stack_names(stacks@) =~= names);
            assert(orig == before);
        }
        state.stacks = stacks;
        Ok(state)
    }

    /// A document that did not parse: loading fails, naming where the
    /// content was preserved.
    pub fn parse_failed(&self, why: &str) -> (r: CoreError)
        ensures
            r matches CoreError::State(m) && m@ == "state.json does not parse ("@ + why@
                + ") — copy preserved at "@ + self.path_view() + ".corrupt"@
                + "; fix or remove the original before running mutating operations"@,
    {
        let mut m = String::from_str("state.json does not parse (");
        m.append(why);
        m.append(") — copy preserved at ");
        let q = self.quarantine_path();
        m.append(q.as_str());
        m.append("; fix or remove the original before running mutating operations");
        CoreError::State(m)
    }

    /// What is written: the document, stamped with the current schema.
    pub fn prepare_save(&self, state: HostState) -> (r: HostState)
        ensures
            r.schema_version == STATE_SCHEMA_VERSION,
            r.stacks == state.stacks,
            r.manual_checks == state.manual_checks,
    {
        let mut s = state;
        s.schema_version = STATE_SCHEMA_VERSION;
        s
    }
}

} // verus!
