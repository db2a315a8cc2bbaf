//! The state of the simulated service: artifacts, sandboxes, and the wakeups
//! that the conversation received.

use vstd::prelude::*;
use crate::clock::{now_utc, Timestamp};
use crate::findings;
use crate::findings::{report_coverage, report_violation, Coverage, Finding, FindingView, ViolationKind};
use crate::message;
use crate::message::{render_message_text, Message};
use crate::text;
use crate::text::{decimal_text, join_texts, same_text};

verus! {

/// How long a conversation turn takes, in milliseconds of virtual time.
pub const SEND_MILLIS: u64 = 20;

/// The transient faults that the service injects.
#[derive(Clone, Copy, Debug, PartialEq, Eq, Structural)]
pub enum ServiceError {
    AgentLookupFailed,
    SendFailed,
    SandboxCreateFailed,
    SandboxRunFailed,
    ArtifactWriteFailed,
}

impl ServiceError {
    pub open spec fn message_text(self) -> Seq<char> {
        match self {
            ServiceError::AgentLookupFailed => "transient: agent lookup failed"@,
            ServiceError::SendFailed => "transient: conversation send failed"@,
            ServiceError::SandboxCreateFailed => "transient: sandbox create failed"@,
            ServiceError::SandboxRunFailed => "transient: run_in_sandbox failed"@,
            ServiceError::ArtifactWriteFailed => "transient: artifact write failed"@,
        }
    }

    /// What the fault is reported as.
    pub fn message(self) -> (r: &'static str)
        ensures
            r@ == self.message_text(),
    {
        match self {
            ServiceError::AgentLookupFailed => "transient: agent lookup failed",
            ServiceError::SendFailed => "transient: conversation send failed",
            ServiceError::SandboxCreateFailed => "transient: sandbox create failed",
            ServiceError::SandboxRunFailed => "transient: run_in_sandbox failed",
            ServiceError::ArtifactWriteFailed => "transient: artifact write failed",
        }
    }
}

/// One recorded wakeup delivery, as the conversation saw it.
#[derive(Debug, Clone)]
pub struct ReceivedWakeup {
    pub prompt: String,
}

/// An artifact: its path, its stable identifier and the contents of its
/// versions, oldest first.
pub struct StoredArtifact {
    pub path: String,
    pub id: String,
    pub versions: Vec<Vec<u8>>,
}

/// What is stored under a path.
pub struct ArtifactEntry {
    pub id: Seq<char>,
    pub versions: Seq<Seq<u8>>,
}

/// The contents of a list of versions.
pub open spec fn contents_of(versions: Seq<Vec<u8>>) -> Seq<Seq<u8>> {
    versions.map_values(|v: Vec<u8>| v@)
}

impl StoredArtifact {
    pub open spec fn entry(self) -> ArtifactEntry {
        ArtifactEntry { id: self.id@, versions: contents_of(self.versions@) }
    }
}

/// The artifacts by path.
pub open spec fn by_path(s: Seq<StoredArtifact>) -> Map<Seq<char>, ArtifactEntry>
    decreases s.len(),
{
    if s.len() == 0 {
        Map::empty()
    } else {
        by_path(s.drop_last()).insert(s.last().path@, s.last().entry())
    }
}

/// Whether no path is stored twice.
pub open spec fn paths_distinct(s: Seq<StoredArtifact>) -> bool {
    forall|i: int, j: int|
        0 <= i < j < s.len() ==> (#[trigger] s[i]).path@ != (#[trigger] s[j]).path@
}

/// The prompts of a list of wakeups.
pub open spec fn prompts_of(s: Seq<ReceivedWakeup>) -> Seq<Seq<char>> {
    s.map_values(|w: ReceivedWakeup| w.prompt@)
}

/// Everything the service remembers. It outlives the scheduler runner: the
/// service is another process.
pub struct ServiceState {
    /// Every artifact written.
    pub artifacts: Vec<StoredArtifact>,
    /// The identifiers of the sandboxes created.
    pub sandboxes: Vec<String>,
    /// Every wakeup the conversation received.
    pub wakeups: Vec<ReceivedWakeup>,
    /// Scripted transient send failures still to come.
    pub send_failures_remaining: u32,
    /// Sandbox commands executed.
    pub commands_run: u64,
    /// Sends currently executing.
    pub sends_inside: u32,
    /// The most sends that executed at once.
    pub max_sends_inside: u32,
}

/// The service's memory in mathematical terms.
#[verifier::ext_equal]
pub struct ServiceView {
    pub artifacts: Map<Seq<char>, ArtifactEntry>,
    pub sandboxes: Seq<Seq<char>>,
    pub wakeups: Seq<Seq<char>>,
    pub send_failures_remaining: nat,
    pub commands_run: nat,
    pub sends_inside: nat,
    pub max_sends_inside: nat,
}

impl View for ServiceState {
    type V = ServiceView;

    open spec fn view(&self) -> ServiceView {
        ServiceView {
            artifacts: by_path(self.artifacts@),
            sandboxes: text::texts(self.sandboxes@),
            wakeups: prompts_of(self.wakeups@),
            send_failures_remaining: self.send_failures_remaining as nat,
            commands_run: self.commands_run as nat,
            sends_inside: self.sends_inside as nat,
            max_sends_inside: self.max_sends_inside as nat,
        }
    }
}

/// A version of an artifact, without its contents.
pub struct ArtifactVersion {
    pub artifact_id: String,
    pub path: String,
    pub version: u64,
    pub created_at: Timestamp,
    pub size_bytes: u64,
}

/// A version of an artifact with its contents.
pub struct Artifact {
    pub version: ArtifactVersion,
    pub contents: Vec<u8>,
}

impl ArtifactVersion {
    /// Whether this describes version `version`, of `size` bytes, of the
    /// artifact `id` at `path`.
    pub open spec fn describes(
        self,
        path: Seq<char>,
        id: Seq<char>,
        version: nat,
        size: nat,
    ) -> bool {
        &&& self.path@ == path
        &&& self.artifact_id@ == id
        &&& self.version == version
        &&& self.size_bytes == size
    }
}

impl ArtifactEntry {
    /// Which version a read asks for: the latest unless it names one.
    pub open spec fn version_asked(self, version: Option<u64>) -> nat {
        match version {
            Some(v) => v as nat,
            None => self.versions.len(),
        }
    }

    /// Where the contents of version `version` stand. Versions count from one;
    /// version zero is read as the first.
    pub open spec fn position(version: nat) -> int {
        if version == 0 {
            0
        } else {
            version - 1
        }
    }
}

impl ServiceView {
    /// What a path holds once `contents` is written to it. A path that is new
    /// gets the identifier `fresh_id`; one that is known keeps its own.
    pub open spec fn written_entry(
        self,
        path: Seq<char>,
        contents: Seq<u8>,
        fresh_id: Seq<char>,
    ) -> ArtifactEntry {
        if self.artifacts.contains_key(path) {
            ArtifactEntry {
                id: self.artifacts[path].id,
                versions: self.artifacts[path].versions.push(contents),
            }
        } else {
            ArtifactEntry { id: fresh_id, versions: seq![contents] }
        }
    }

    /// The memory after `contents` is written to `path`.
    pub open spec fn after_write(
        self,
        path: Seq<char>,
        contents: Seq<u8>,
        fresh_id: Seq<char>,
    ) -> ServiceView {
        ServiceView {
            artifacts: self.artifacts.insert(path, self.written_entry(path, contents, fresh_id)),
            ..self
        }
    }

    /// The memory after a sandbox `id` is created.
    pub open spec fn after_sandbox(self, id: Seq<char>) -> ServiceView {
        ServiceView { sandboxes: self.sandboxes.push(id), ..self }
    }

    /// The memory after a sandbox command is executed.
    pub open spec fn after_command(self) -> ServiceView {
        ServiceView { commands_run: self.commands_run + 1, ..self }
    }

    /// The memory once another send executes.
    pub open spec fn after_enter(self) -> ServiceView {
        ServiceView {
            sends_inside: self.sends_inside + 1,
            max_sends_inside: if self.max_sends_inside >= self.sends_inside + 1 {
                self.max_sends_inside
            } else {
                self.sends_inside + 1
            },
            ..self
        }
    }

    /// The memory once a send no longer executes.
    pub open spec fn after_leave(self) -> ServiceView {
        ServiceView { sends_inside: (self.sends_inside - 1) as nat, ..self }
    }

    /// The memory after a send that failed.
    pub open spec fn after_failed_send(self) -> ServiceView {
        ServiceView {
            send_failures_remaining: if self.send_failures_remaining > 0 {
                (self.send_failures_remaining - 1) as nat
            } else {
                0
            },
            ..self
        }
    }

    /// The memory after a send whose prompt was received.
    pub open spec fn after_received(self, prompt: Seq<char>) -> ServiceView {
        ServiceView { wakeups: self.wakeups.push(prompt), ..self }
    }

    /// Whether `path` holds the artifact `id`.
    pub open spec fn holds(self, path: Seq<char>, id: Seq<char>) -> bool {
        self.artifacts.contains_key(path) && self.artifacts[path].id == id
    }

    /// Whether no two paths share an identifier.
    pub open spec fn ids_distinct(self) -> bool {
        forall|p: Seq<char>, q: Seq<char>|
            #![trigger self.artifacts[p], self.artifacts[q]]
            self.artifacts.contains_key(p) && self.artifacts.contains_key(q)
                && self.artifacts[p].id == self.artifacts[q].id ==> p == q
    }

    /// Whether a read of artifact `id` at `path` may return `r`.
    pub open spec fn reads(
        self,
        path: Seq<char>,
        id: Seq<char>,
        version: Option<u64>,
        r: Option<Artifact>,
    ) -> bool {
        let entry = self.artifacts[path];
        let asked = entry.version_asked(version);
        let at = ArtifactEntry::position(asked);
        &&& self.holds(path, id)
        &&& match r {
            Some(artifact) => {
                &&& at < entry.versions.len()
                &&& artifact.contents@ == entry.versions[at]
                &&& artifact.version.describes(path, id, asked, entry.versions[at].len())
            },
            None => at >= entry.versions.len(),
        }
    }
}

proof fn lemma_by_path(s: Seq<StoredArtifact>)
    requires
        paths_distinct(s),
    ensures
        forall|i: int|
            0 <= i < s.len() ==> by_path(s).contains_key((#[trigger] s[i]).path@)
                && by_path(s)[s[i].path@] == s[i].entry(),
        forall|p: Seq<char>|
            #[trigger] by_path(s).contains_key(p) ==> exists|i: int|
                0 <= i < s.len() && (#[trigger] s[i]).path@ == p,
    decreases s.len(),
{
    if s.len() > 0 {
        let front = s.drop_last();
        assert(paths_distinct(front)) by {
            assert forall|i: int, j: int| 0 <= i < j < front.len() implies (#[trigger] front[i]).path@
                != (#[trigger] front[j]).path@ by {
                assert(s[i].path@ != s[j].path@);
            }
        }
        lemma_by_path(front);
        assert forall|i: int| 0 <= i < s.len() implies by_path(s).contains_key(
            (#[trigger] s[i]).path@,
        ) && by_path(s)[s[i].path@] == s[i].entry() by {
            if i < front.len() {
                assert(front[i] == s[i]);
                assert(s[i].path@ != s[s.len() - 1].path@);
            }
        }
        assert forall|p: Seq<char>| #[trigger] by_path(s).contains_key(p) implies exists|i: int|
            0 <= i < s.len() && (#[trigger] s[i]).path@ == p by {
            if p == s.last().path@ {
                assert(s[s.len() - 1].path@ == p);
            } else {
                assert(by_path(front).contains_key(p));
                let i = choose|i: int| 0 <= i < front.len() && (#[trigger] front[i]).path@ == p;
                assert(s[i].path@ == p);
            }
        }
    }
}

/// Replacing what an artifact holds replaces it in the map.
proof fn lemma_by_path_update(s: Seq<StoredArtifact>, i: int, a: StoredArtifact)
    requires
        paths_distinct(s),
        0 <= i < s.len(),
        a.path@ == s[i].path@,
    ensures
        paths_distinct(s.update(i, a)),
        by_path(s.update(i, a)) == by_path(s).insert(a.path@, a.entry()),
{
    let t = s.update(i, a);
    assert forall|x: int, y: int| 0 <= x < y < t.len() implies (#[trigger] t[x]).path@
        != (#[trigger] t[y]).path@ by {
        assert(s[x].path@ != s[y].path@);
    }
    lemma_by_path(s);
    lemma_by_path(t);
    let m = by_path(t);
    let n = by_path(s).insert(a.path@, a.entry());
    assert forall|p: Seq<char>| m.contains_key(p) <==> n.contains_key(p) by {
        if m.contains_key(p) {
            let k = choose|k: int| 0 <= k < t.len() && (#[trigger] t[k]).path@ == p;
            assert(by_path(s).contains_key(s[k].path@));
        }
        if n.contains_key(p) {
            if p == a.path@ {
                assert(m.contains_key(t[i].path@));
            } else {
                let k = choose|k: int| 0 <= k < s.len() && (#[trigger] s[k]).path@ == p;
                assert(m.contains_key(t[k].path@));
            }
        }
    }
    assert forall|p: Seq<char>| m.contains_key(p) implies m[p] == n[p] by {
        let k = choose|k: int| 0 <= k < t.len() && (#[trigger] t[k]).path@ == p;
        if k == i {
            assert(m[t[i].path@] == a.entry());
        } else {
            assert(s[k] == t[k]);
            assert(by_path(s)[s[k].path@] == s[k].entry());
            if k < i {
                assert(s[k].path@ != s[i].path@);
            } else {
                assert(s[i].path@ != s[k].path@);
            }
        }
    }
    assert(m =~= n);
}

/// The memory of a service that has just started.
pub open spec fn empty_memory() -> ServiceView {
    ServiceView {
        artifacts: Map::empty(),
        sandboxes: Seq::empty(),
        wakeups: Seq::empty(),
        send_failures_remaining: 0,
        commands_run: 0,
        sends_inside: 0,
        max_sends_inside: 0,
    }
}

impl Default for ServiceState {
    /// A service that remembers nothing.
    fn default() -> (r: Self)
        ensures
            r.wf(),
            r@ == empty_memory(),
            r.artifacts@.len() == 0,
            r.sandboxes@.len() == 0,
            r.wakeups@.len() == 0,
            r.send_failures_remaining == 0,
            r.commands_run == 0,
            r.sends_inside == 0,
            r.max_sends_inside == 0,
    {
        let r = ServiceState {
            artifacts: Vec::new(),
            sandboxes: Vec::new(),
            wakeups: Vec::new(),
            send_failures_remaining: 0,
            commands_run: 0,
            sends_inside: 0,
            max_sends_inside: 0,
        };
        assert(r@ =~= empty_memory());
        r
    }
}

impl ServiceState {
    /// Whether no path is stored twice and every artifact has a version.
    pub open spec fn wf(&self) -> bool {
        &&& paths_distinct(self.artifacts@)
        &&& forall|i: int|
            0 <= i < self.artifacts@.len() ==> (#[trigger] self.artifacts@[i]).versions@.len() > 0
    }

    /// Finds the artifact stored at `path`.
    fn find_path(&self, path: &str) -> (r: Option<usize>)
        requires
            self.wf(),
        ensures
            match r {
                Some(i) => i < self.artifacts@.len() && self.artifacts@[i as int].path@ == path@,
                None => !self@.artifacts.contains_key(path@),
            },
    {
        let mut i: usize = 0;
        while i < self.artifacts.len()
            invariant
                i <= self.artifacts@.len(),
                forall|j: int| 0 <= j < i ==> (#[trigger] self.artifacts@[j]).path@ != path@,
            decreases self.artifacts@.len() - i,
        {
            if same_text(self.artifacts[i].path.as_str(), path) {
                return Some(i);
            }
            i = i + 1;
        }
        proof {
            lemma_by_path(self.artifacts@);
        }
        None
    }

    /// Whether an artifact is stored at `path`. A write to one that is not needs
    /// a new identifier.
    pub fn knows_path(&self, path: &str) -> (r: bool)
        requires
            self.wf(),
        ensures
            r == self@.artifacts.contains_key(path@),
    {
        proof {
            lemma_by_path(self.artifacts@);
        }
        self.find_path(path).is_some()
    }

    /// Adds a version to the artifact at `path`, and returns the artifact's
    /// identifier and the number of the version.
    fn add_version(&mut self, path: &str, contents: Vec<u8>, fresh_id: String) -> (r: (String, u64))
        requires
            old(self).wf(),
        ensures
            final(self).wf(),
            final(self)@ == old(self)@.after_write(path@, contents@, fresh_id@),
            r.0@ == final(self)@.artifacts[path@].id,
            r.1 == final(self)@.artifacts[path@].versions.len(),
    {
        let ghost data = contents@;
        match self.find_path(path) {
            Some(i) => {
                proof {
                    lemma_by_path(self.artifacts@);
                }
                let ghost before = self.artifacts@;
                let ghost old_versions = contents_of(before[i as int].versions@);
                self.artifacts[i].versions.push(contents);
                let ghost stored = self.artifacts@[i as int];
                assert(contents_of(stored.versions@) =~= old_versions.push(data));
                let version: u64 = self.artifacts[i].versions.len() as u64;
                let artifact_id = self.artifacts[i].id.clone();
                proof {
                    assert(self.artifacts@ =~= before.update(i as int, stored));
                    lemma_by_path_update(before, i as int, stored);
                    assert(self@ =~= old(self)@.after_write(path@, data, fresh_id@));
                }
                (artifact_id, version)
            },
            None => {
                let ghost before = self.artifacts@;
                let mut versions: Vec<Vec<u8>> = Vec::new();
                versions.push(contents);
                assert(contents_of(versions@) =~= seq![data]);
                let artifact_id = fresh_id.clone();
                self.artifacts.push(StoredArtifact { path: path.to_owned(), id: fresh_id, versions });
                proof {
                    lemma_by_path(before);
                    assert(self.artifacts@.drop_last() =~= before);
                    assert forall|x: int, y: int| 0 <= x < y < self.artifacts@.len() implies (
                    #[trigger] self.artifacts@[x]).path@ != (#[trigger] self.artifacts@[y]).path@ by {
                        if y < before.len() {
                            assert(before[x].path@ != before[y].path@);
                        } else {
                            assert(by_path(before).contains_key(before[x].path@));
                        }
                    }
                    assert(self@ =~= old(self)@.after_write(path@, data, fresh_id@));
                }
                (artifact_id, 1)
            },
        }
    }

    /// Stores a new version of the artifact at `path`, stamped `created_at`.
    pub fn store_artifact(
        &mut self,
        path: String,
        contents: Vec<u8>,
        fresh_id: String,
        created_at: Timestamp,
    ) -> (r: ArtifactVersion)
        requires
            old(self).wf(),
        ensures
            final(self).wf(),
            final(self)@ == old(self)@.after_write(path@, contents@, fresh_id@),
            r.created_at == created_at,
            r.describes(
                path@,
                final(self)@.artifacts[path@].id,
                final(self)@.artifacts[path@].versions.len(),
                contents@.len(),
            ),
    {
        let size_bytes: u64 = contents.len() as u64;
        let (artifact_id, version) = self.add_version(path.as_str(), contents, fresh_id);
        ArtifactVersion { artifact_id, path, version, created_at, size_bytes }
    }

    /// Writes a new version of the artifact at `path`, unless the fault strikes.
    /// The clock is read once the version is stored.
    pub fn write_artifact(
        &mut self,
        fault: bool,
        path: String,
        contents: Vec<u8>,
        fresh_id: String,
    ) -> (r: Result<ArtifactVersion, ServiceError>)
        requires
            old(self).wf(),
        ensures
            final(self).wf(),
            match r {
                Ok(version) => {
                    &&& !fault
                    &&& final(self)@ == old(self)@.after_write(path@, contents@, fresh_id@)
                    &&& version.describes(
                        path@,
                        final(self)@.artifacts[path@].id,
                        final(self)@.artifacts[path@].versions.len(),
                        contents@.len(),
                    )
                    &&& version.created_at.nanos < 1_000_000_000
                },
                Err(e) => fault && e == ServiceError::ArtifactWriteFailed && final(self)@ == old(
                    self,
                )@,
            },
    {
        if fault {
            return Err(ServiceError::ArtifactWriteFailed);
        }
        let size_bytes: u64 = contents.len() as u64;
        let (artifact_id, version) = self.add_version(path.as_str(), contents, fresh_id);
        let created_at = now_utc();
        Ok(ArtifactVersion { artifact_id, path, version, created_at, size_bytes })
    }

    /// Finds an artifact by its identifier.
    fn find_id(&self, id: &str) -> (r: Option<usize>)
        requires
            self.wf(),
        ensures
            match r {
                Some(i) => i < self.artifacts@.len() && self@.holds(
                    self.artifacts@[i as int].path@,
                    id@,
                ),
                None => forall|p: Seq<char>| !#[trigger] self@.holds(p, id@),
            },
    {
        let mut i: usize = 0;
        proof {
            lemma_by_path(self.artifacts@);
        }
        while i < self.artifacts.len()
            invariant
                i <= self.artifacts@.len(),
                self.wf(),
                forall|j: int| 0 <= j < i ==> (#[trigger] self.artifacts@[j]).id@ != id@,
            decreases self.artifacts@.len() - i,
        {
            if same_text(self.artifacts[i].id.as_str(), id) {
                proof {
                    lemma_by_path(self.artifacts@);
                }
                return Some(i);
            }
            i = i + 1;
        }
        proof {
            lemma_by_path(self.artifacts@);
            assert forall|p: Seq<char>| !#[trigger] self@.holds(p, id@) by {
                if self@.holds(p, id@) {
                    let k = choose|k: int|
                        0 <= k < self.artifacts@.len() && (#[trigger] self.artifacts@[k]).path@ == p;
                    assert(self.artifacts@[k].id@ != id@);
                }
            }
        }
        None
    }

    /// Finds a version of the artifact `id`, the latest unless one is named:
    /// which artifact it is, and which version was asked for.
    fn find_version(&self, id: &str, version: Option<u64>) -> (r: Option<(usize, u64)>)
        requires
            self.wf(),
        ensures
            match r {
                Some((i, asked)) => {
                    &&& i < self.artifacts@.len()
                    &&& self.artifacts@[i as int].id@ == id@
                    &&& asked == self.artifacts@[i as int].entry().version_asked(version)
                    &&& ArtifactEntry::position(asked as nat) < self.artifacts@[i as int].versions@.len()
                },
                None => (exists|p: Seq<char>| #[trigger] self@.holds(p, id@)) ==> exists|p: Seq<char>|
                    #[trigger] self@.reads(p, id@, version, None),
            },
    {
        match self.find_id(id) {
            None => None,
            Some(i) => {
                let stored = &self.artifacts[i];
                proof {
                    lemma_by_path(self.artifacts@);
                    assert(self@.artifacts[stored.path@] == stored.entry());
                }
                let asked: u64 = match version {
                    Some(v) => v,
                    None => stored.versions.len() as u64,
                };
                let at: u64 = if asked == 0 {
                    0
                } else {
                    asked - 1
                };
                if at >= stored.versions.len() as u64 {
                    assert(self@.reads(stored.path@, id@, version, None));
                    return None;
                }
                Some((i, asked))
            },
        }
    }

    /// Hands out version `asked` of the artifact in place `i`, stamped
    /// `created_at`.
    fn stamped_version(&self, i: usize, asked: u64, created_at: Timestamp) -> (r: Artifact)
        requires
            i < self.artifacts@.len(),
            ArtifactEntry::position(asked as nat) < self.artifacts@[i as int].versions@.len(),
        ensures
            ({
                let stored = self.artifacts@[i as int];
                let held = stored.entry().versions[ArtifactEntry::position(asked as nat)];
                &&& r.contents@ == held
                &&& r.version.describes(stored.path@, stored.id@, asked as nat, held.len())
                &&& r.version.created_at == created_at
            }),
    {
        let stored = &self.artifacts[i];
        let at: u64 = if asked == 0 {
            0
        } else {
            asked - 1
        };
        assert(at < stored.versions.len());
        let contents = clone_bytes(&stored.versions[at as usize]);
        assert(stored.entry().versions[at as int] == contents@);
        let size_bytes: u64 = contents.len() as u64;
        Artifact {
            version: ArtifactVersion {
                artifact_id: stored.id.clone(),
                path: stored.path.clone(),
                version: asked,
                created_at,
                size_bytes,
            },
            contents,
        }
    }

    /// Reads a version of the artifact `id`, the latest unless one is named, and
    /// stamps it `created_at`.
    pub fn fetch_artifact(&self, id: &str, version: Option<u64>, created_at: Timestamp) -> (r:
        Option<Artifact>)
        requires
            self.wf(),
        ensures
            (forall|p: Seq<char>| !#[trigger] self@.holds(p, id@)) ==> r is None,
            (exists|p: Seq<char>| #[trigger] self@.holds(p, id@)) ==> exists|p: Seq<char>| #[trigger]
                self@.reads(p, id@, version, r),
            r matches Some(artifact) ==> artifact.version.created_at == created_at,
    {
        match self.find_version(id, version) {
            None => None,
            Some((i, asked)) => {
                let r = Some(self.stamped_version(i, asked, created_at));
                proof {
                    lemma_by_path(self.artifacts@);
                    assert(self@.reads(self.artifacts@[i as int].path@, id@, version, r));
                }
                r
            },
        }
    }

    /// Reads a version of the artifact `id`, the latest unless one is named. The
    /// clock is read only for a version that is there.
    pub fn read_artifact(&self, id: &str, version: Option<u64>) -> (r: Option<Artifact>)
        requires
            self.wf(),
        ensures
            (forall|p: Seq<char>| !#[trigger] self@.holds(p, id@)) ==> r is None,
            (exists|p: Seq<char>| #[trigger] self@.holds(p, id@)) ==> exists|p: Seq<char>| #[trigger]
                self@.reads(p, id@, version, r),
            r matches Some(artifact) ==> artifact.version.created_at.nanos < 1_000_000_000,
    {
        match self.find_version(id, version) {
            None => None,
            Some((i, asked)) => {
                let created_at = now_utc();
                let r = Some(self.stamped_version(i, asked, created_at));
                proof {
                    lemma_by_path(self.artifacts@);
                    assert(self@.reads(self.artifacts@[i as int].path@, id@, version, r));
                }
                r
            },
        }
    }

    /// Lists the latest version of every artifact.
    pub fn list_artifacts(&self) -> (r: Vec<ArtifactVersion>)
        requires
            self.wf(),
        ensures
            forall|i: int, j: int|
                0 <= i < j < r@.len() ==> (#[trigger] r@[i]).path@ != (#[trigger] r@[j]).path@,
            forall|i: int|
                0 <= i < r@.len() ==> {
                    let v = #[trigger] r@[i];
                    &&& self@.artifacts.contains_key(v.path@)
                    &&& v.describes(
                        v.path@,
                        self@.artifacts[v.path@].id,
                        self@.artifacts[v.path@].versions.len(),
                        self@.artifacts[v.path@].versions.last().len(),
                    )
                    &&& v.created_at.nanos < 1_000_000_000
                },
            forall|p: Seq<char>|
                #[trigger] self@.artifacts.contains_key(p) ==> exists|i: int|
                    0 <= i < r@.len() && (#[trigger] r@[i]).path@ == p,
    {
        let mut out: Vec<ArtifactVersion> = Vec::new();
        let mut i: usize = 0;
        while i < self.artifacts.len()
            invariant
                i <= self.artifacts@.len(),
                self.wf(),
                out@.len() == i,
                forall|k: int|
                    0 <= k < i ==> {
                        let v = #[trigger] out@[k];
                        &&& v.describes(
                            self.artifacts@[k].path@,
                            self.artifacts@[k].entry().id,
                            self.artifacts@[k].entry().versions.len(),
                            self.artifacts@[k].entry().versions.last().len(),
                        )
                        &&& v.created_at.nanos < 1_000_000_000
                    },
            decreases self.artifacts@.len() - i,
        {
            let stored = &self.artifacts[i];
            let count = stored.versions.len();
            assert(stored.versions@.len() > 0);
            let size_bytes: u64 = stored.versions[count - 1].len() as u64;
            let created_at = now_utc();
            out.push(
                ArtifactVersion {
                    artifact_id: stored.id.clone(),
                    path: stored.path.clone(),
                    version: count as u64,
                    created_at,
                    size_bytes,
                },
            );
            i = i + 1;
        }
        proof {
            lemma_by_path(self.artifacts@);
            assert forall|a: int, b: int| 0 <= a < b < out@.len() implies (#[trigger] out@[a]).path@
                != (#[trigger] out@[b]).path@ by {
                assert(self.artifacts@[a].path@ != self.artifacts@[b].path@);
            }
            assert forall|a: int| 0 <= a < out@.len() implies ({
                let v = #[trigger] out@[a];
                self@.artifacts.contains_key(v.path@) && self@.artifacts[v.path@]
                    == self.artifacts@[a].entry()
            }) by {
                assert(by_path(self.artifacts@).contains_key(self.artifacts@[a].path@));
            }
            assert forall|p: Seq<char>| #[trigger] self@.artifacts.contains_key(p) implies exists|
                a: int,
            | 0 <= a < out@.len() && (#[trigger] out@[a]).path@ == p by {
                let k = choose|k: int|
                    0 <= k < self.artifacts@.len() && (#[trigger] self.artifacts@[k]).path@ == p;
                assert(out@[k].path@ == p);
            }
        }
        out
    }

    /// Creates a sandbox, unless the fault strikes. It is called `name`, or
    /// after `fresh_id` if it has none.
    pub fn create_sandbox(&mut self, fault: bool, name: Option<String>, fresh_id: &str) -> (r: Result<
        String,
        ServiceError,
    >)
        ensures
            final(self).artifacts == old(self).artifacts,
            match r {
                Ok(id) => {
                    &&& !fault
                    &&& id@ == (match name {
                        Some(given) => given@,
                        None => "sandbox-"@ + fresh_id@,
                    })
                    &&& final(self)@ == old(self)@.after_sandbox(id@)
                },
                Err(e) => fault && e == ServiceError::SandboxCreateFailed && final(self)@ == old(
                    self,
                )@,
            },
    {
        if fault {
            return Err(ServiceError::SandboxCreateFailed);
        }
        let id = match name {
            Some(given) => given,
            None => {
                let mut id = "sandbox-".to_owned();
                id.append(fresh_id);
                id
            },
        };
        self.sandboxes.push(id.clone());
        assert(text::texts(self.sandboxes@) =~= text::texts(old(self).sandboxes@).push(id@));
        assert(self@ =~= old(self)@.after_sandbox(id@));
        Ok(id)
    }

    /// Counts an executed sandbox command.
    pub fn note_command(&mut self)
        requires
            old(self).commands_run < u64::MAX,
        ensures
            final(self).artifacts == old(self).artifacts,
            final(self)@ == old(self)@.after_command(),
    {
        self.commands_run = self.commands_run + 1;
    }

    /// A send begins to execute.
    pub fn enter_send(&mut self)
        requires
            old(self).sends_inside < u32::MAX,
        ensures
            final(self).artifacts == old(self).artifacts,
            final(self)@ == old(self)@.after_enter(),
    {
        self.sends_inside = self.sends_inside + 1;
        if self.max_sends_inside < self.sends_inside {
            self.max_sends_inside = self.sends_inside;
        }
    }

    /// A send stops executing, whether it finished or was cancelled.
    pub fn leave_send(&mut self)
        requires
            old(self).sends_inside > 0,
        ensures
            final(self).artifacts == old(self).artifacts,
            final(self)@ == old(self)@.after_leave(),
    {
        self.sends_inside = self.sends_inside - 1;
    }

    /// Whether the next send is scripted to fail.
    pub fn send_scripted_to_fail(&self) -> (r: bool)
        ensures
            r == (self@.send_failures_remaining > 0),
    {
        self.send_failures_remaining > 0
    }

    /// Decides a send: it fails if it is scripted to or the fault strikes;
    /// otherwise the conversation receives the messages as one prompt.
    pub fn finish_send(&mut self, fault: bool, input: &Vec<Message>) -> (r: Result<(), ServiceError>)
        ensures
            final(self).artifacts == old(self).artifacts,
            match r {
                Ok(()) => {
                    &&& old(self)@.send_failures_remaining == 0
                    &&& !fault
                    &&& final(self)@ == old(self)@.after_received(
                        text::joined(message::rendered_all(input@), "\n"@),
                    )
                    &&& final(self).wakeups@.len() == old(self).wakeups@.len() + 1
                    &&& final(self).wakeups@.drop_last() == old(self).wakeups@
                    &&& final(self).wakeups@.last().prompt@ == text::joined(
                        message::rendered_all(input@),
                        "\n"@,
                    )
                },
                Err(e) => {
                    &&& old(self)@.send_failures_remaining > 0 || fault
                    &&& e == ServiceError::SendFailed
                    &&& final(self)@ == old(self)@.after_failed_send()
                    &&& final(self).wakeups@ == old(self).wakeups@
                },
            },
    {
        if self.send_failures_remaining > 0 || fault {
            self.send_failures_remaining = self.send_failures_remaining.saturating_sub(1);
            return Err(ServiceError::SendFailed);
        }
        let ghost all = message::rendered_all(input@);
        let mut parts: Vec<String> = Vec::new();
        let mut i: usize = 0;
        while i < input.len()
            invariant
                i <= input@.len(),
                all == message::rendered_all(input@),
                text::texts(parts@) == all.take(i as int),
            decreases input@.len() - i,
        {
            let part = render_message_text(&input[i]);
            let ghost before = parts@;
            parts.push(part);
            assert(text::texts(parts@) =~= text::texts(before).push(part@));
            assert(all.take(i + 1) =~= all.take(i as int).push(part@));
            i = i + 1;
        }
        assert(all.take(i as int) =~= all);
        let prompt = join_texts(&parts, "\n");
        self.wakeups.push(ReceivedWakeup { prompt });
        assert(prompts_of(self.wakeups@) =~= prompts_of(old(self).wakeups@).push(prompt@));
        assert(self@ =~= old(self)@.after_received(prompt@));
        assert(self.wakeups@.drop_last() =~= old(self).wakeups@);
        Ok(())
    }

    /// Scripts no further send failures.
    pub fn clear_send_failures(&mut self)
        ensures
            final(self).artifacts == old(self).artifacts,
            final(self)@ == (ServiceView { send_failures_remaining: 0, ..old(self)@ }),
    {
        self.send_failures_remaining = 0;
    }

    /// Forgets how many sends executed at once.
    pub fn reset_send_high_water(&mut self)
        ensures
            final(self).artifacts == old(self).artifacts,
            final(self)@ == (ServiceView { max_sends_inside: 0, ..old(self)@ }),
    {
        self.max_sends_inside = 0;
    }

    /// The prompts of the wakeups received, in the order they came.
    pub fn prompts(&self) -> (r: Vec<String>)
        ensures
            text::texts(r@) == self@.wakeups,
    {
        let mut out: Vec<String> = Vec::new();
        let mut i: usize = 0;
        while i < self.wakeups.len()
            invariant
                i <= self.wakeups@.len(),
                text::texts(out@) == prompts_of(self.wakeups@).take(i as int),
            decreases self.wakeups@.len() - i,
        {
            let ghost before = out@;
            out.push(self.wakeups[i].prompt.clone());
            assert(text::texts(out@) =~= text::texts(before).push(self.wakeups@[i as int].prompt@));
            assert(prompts_of(self.wakeups@).take(i + 1) =~= prompts_of(self.wakeups@).take(
                i as int,
            ).push(self.wakeups@[i as int].prompt@));
            i = i + 1;
        }
        assert(prompts_of(self.wakeups@).take(i as int) =~= prompts_of(self.wakeups@));
        out
    }
}

/// Copies bytes.
pub(crate) fn clone_bytes(bytes: &Vec<u8>) -> (r: Vec<u8>)
    ensures
        r@ == bytes@,
{
    let r = bytes.clone();
    assert(r@ =~= bytes@);
    r
}

/// A write keeps the identifiers of the artifacts apart, as long as the
/// identifier for a new path is really new.
pub proof fn law_write_keeps_ids_distinct(
    v: ServiceView,
    path: Seq<char>,
    contents: Seq<u8>,
    fresh_id: Seq<char>,
)
    requires
        v.ids_distinct(),
        v.artifacts.contains_key(path) || forall|p: Seq<char>| !#[trigger] v.holds(p, fresh_id),
    ensures
        v.after_write(path, contents, fresh_id).ids_distinct(),
{
    let w = v.after_write(path, contents, fresh_id);
    assert forall|p: Seq<char>, q: Seq<char>|
        #![trigger w.artifacts[p], w.artifacts[q]]
        w.artifacts.contains_key(p) && w.artifacts.contains_key(q) && w.artifacts[p].id
            == w.artifacts[q].id implies p == q by {
        if p != q {
            let known = v.artifacts.contains_key(path);
            if p == path {
                assert(w.artifacts[q] == v.artifacts[q]);
                if known {
                    assert(v.artifacts[p].id == v.artifacts[q].id);
                } else {
                    assert(!v.holds(q, fresh_id));
                }
            } else if q == path {
                assert(w.artifacts[p] == v.artifacts[p]);
                if known {
                    assert(v.artifacts[p].id == v.artifacts[q].id);
                } else {
                    assert(!v.holds(p, fresh_id));
                }
            } else {
                assert(v.artifacts[p].id == v.artifacts[q].id);
            }
        }
    }
}

/// What was written is read back: after a write, a read of the artifact without
/// a version, or of the version just written, returns the contents written, as
/// the newest version, and a read of an earlier version returns what that
/// version held before.
pub proof fn law_read_returns_what_was_written(
    v: ServiceView,
    path: Seq<char>,
    contents: Seq<u8>,
    fresh_id: Seq<char>,
    p: Seq<char>,
    r: Option<Artifact>,
)
    requires
        v.ids_distinct(),
        v.artifacts.contains_key(path) || forall|q: Seq<char>| !#[trigger] v.holds(q, fresh_id),
    ensures
        ({
            let w = v.after_write(path, contents, fresh_id);
            let id = w.artifacts[path].id;
            let n = w.artifacts[path].versions.len();
            &&& w.holds(path, id)
            &&& w.reads(p, id, None, r) ==> {
                &&& r matches Some(a)
                &&& a.contents@ == contents
                &&& a.version.describes(path, id, n, contents.len())
            }
            &&& forall|k: u64|
                1 <= k <= n && #[trigger] w.reads(p, id, Some(k), r) ==> {
                    &&& r matches Some(a)
                    &&& k < n ==> v.artifacts.contains_key(path)
                    &&& a.contents@ == (if k == n {
                        contents
                    } else {
                        v.artifacts[path].versions[k - 1]
                    })
                    &&& a.version.describes(path, id, k as nat, a.contents@.len())
                }
        }),
{
    let w = v.after_write(path, contents, fresh_id);
    let id = w.artifacts[path].id;
    law_write_keeps_ids_distinct(v, path, contents, fresh_id);
    if w.holds(p, id) {
        assert(w.artifacts[p].id == w.artifacts[path].id);
        assert(p == path);
    }
}

/// A write to one path leaves every other path as it was.
pub proof fn law_write_touches_one_path(
    v: ServiceView,
    path: Seq<char>,
    contents: Seq<u8>,
    fresh_id: Seq<char>,
    other: Seq<char>,
)
    requires
        other != path,
    ensures
        v.after_write(path, contents, fresh_id).artifacts.contains_key(other)
            == v.artifacts.contains_key(other),
        v.artifacts.contains_key(other) ==> v.after_write(path, contents, fresh_id).artifacts[other]
            == v.artifacts[other],
{
}

/// The identifier of an artifact is stable: later writes to its path keep it.
pub proof fn law_identifier_is_stable(
    v: ServiceView,
    path: Seq<char>,
    first: Seq<u8>,
    first_id: Seq<char>,
    second: Seq<u8>,
    second_id: Seq<char>,
)
    ensures
        v.after_write(path, first, first_id).after_write(
            path,
            second,
            second_id,
        ).artifacts[path].id == v.after_write(path, first, first_id).artifacts[path].id,
{
}

/// A send that begins or stops executing.
pub enum SendEvent {
    Enter,
    Leave,
}

/// How many sends execute after `events`, counted from `start`.
pub open spec fn inside_after(start: int, events: Seq<SendEvent>) -> int
    decreases events.len(),
{
    if events.len() == 0 {
        start
    } else {
        inside_after(start, events.drop_last()) + (match events.last() {
            SendEvent::Enter => 1int,
            SendEvent::Leave => -1int,
        })
    }
}

/// The memory after `events`.
pub open spec fn after_sends(v: ServiceView, events: Seq<SendEvent>) -> ServiceView
    decreases events.len(),
{
    if events.len() == 0 {
        v
    } else {
        let before = after_sends(v, events.drop_last());
        match events.last() {
            SendEvent::Enter => before.after_enter(),
            SendEvent::Leave => before.after_leave(),
        }
    }
}

/// Whether no send stops that has not begun.
pub open spec fn sends_bracketed(start: int, events: Seq<SendEvent>) -> bool {
    forall|n: int| 0 <= n <= events.len() ==> inside_after(start, #[trigger] events.take(n)) >= 0
}

/// A send that begins and stops, finished or cancelled, leaves the number of
/// executing sends as it was.
pub proof fn law_send_slot_is_released(v: ServiceView)
    ensures
        v.after_enter().after_leave().sends_inside == v.sends_inside,
{
}

/// The high-water mark stays at or above the number of executing sends.
pub proof fn law_high_water_bounds_inside(v: ServiceView)
    requires
        v.sends_inside <= v.max_sends_inside,
    ensures
        v.after_enter().sends_inside <= v.after_enter().max_sends_inside,
        v.sends_inside > 0 ==> v.after_leave().sends_inside <= v.after_leave().max_sends_inside,
{
}

/// The memory after `n` failed sends.
pub open spec fn after_failed_sends(v: ServiceView, n: nat) -> ServiceView
    decreases n,
{
    if n == 0 {
        v
    } else {
        after_failed_sends(v, (n - 1) as nat).after_failed_send()
    }
}

/// Scripted failures are transient: each failed send uses one up, until none is
/// left.
pub proof fn law_scripted_failures_run_out(v: ServiceView, n: nat)
    ensures
        after_failed_sends(v, n).send_failures_remaining == (if n < v.send_failures_remaining {
            (v.send_failures_remaining - n) as nat
        } else {
            0
        }),
        after_failed_sends(v, n).wakeups == v.wakeups,
    decreases n,
{
    if n > 0 {
        law_scripted_failures_run_out(v, (n - 1) as nat);
    }
}

/// The high-water mark reaches `level` exactly when that many sends executed at
/// once at some moment. With a `level` of two, from a mark just reset, this is
/// when two wakeup turns held one conversation.
pub proof fn law_high_water_mark_is_exact(v: ServiceView, events: Seq<SendEvent>, level: nat)
    requires
        sends_bracketed(v.sends_inside as int, events),
        v.sends_inside < level,
        v.max_sends_inside < level,
    ensures
        after_sends(v, events).sends_inside == inside_after(v.sends_inside as int, events),
        after_sends(v, events).max_sends_inside >= level <==> exists|n: int|
            0 <= n <= events.len() && inside_after(v.sends_inside as int, #[trigger] events.take(n))
                >= level,
    decreases events.len(),
{
    let start = v.sends_inside as int;
    assert(events.take(events.len() as int) =~= events);
    if events.len() > 0 {
        let front = events.drop_last();
        assert forall|n: int| 0 <= n <= front.len() implies inside_after(
            start,
            #[trigger] front.take(n),
        ) >= 0 by {
            assert(front.take(n) =~= events.take(n));
        }
        law_high_water_mark_is_exact(v, front, level);
        assert(inside_after(start, events.take(events.len() as int)) >= 0);
        let before = after_sends(v, front);
        let after = after_sends(v, events);
        if after.max_sends_inside >= level {
            if before.max_sends_inside >= level {
                let n = choose|n: int|
                    0 <= n <= front.len() && inside_after(start, #[trigger] front.take(n)) >= level;
                assert(front.take(n) =~= events.take(n));
            } else {
                assert(inside_after(start, events.take(events.len() as int)) >= level);
            }
        }
        if exists|n: int|
            0 <= n <= events.len() && inside_after(start, #[trigger] events.take(n)) >= level {
            let n = choose|n: int|
                0 <= n <= events.len() && inside_after(start, #[trigger] events.take(n)) >= level;
            if n <= front.len() {
                assert(front.take(n) =~= events.take(n));
            }
        }
    } else {
        assert forall|n: int| 0 <= n <= events.len() implies inside_after(
            start,
            #[trigger] events.take(n),
        ) < level by {
            assert(events.take(n) =~= events);
        }
    }
}

pub open spec fn double_hold_detail(max_inside: nat) -> Seq<char> {
    text::decimal(max_inside) + " wakeup sends ran concurrently on one conversation"@
}

/// The wakeup lock keeps two wakeup turns off one conversation.
pub open spec fn lock_findings(max_inside: nat) -> Seq<FindingView> {
    seq![FindingView::Observed(Coverage::WakeupLockSerialized, max_inside == 1)]
        + findings::breach_if(
        max_inside > 1,
        ViolationKind::WakeupLockDoubleHold,
        double_hold_detail(max_inside),
    )
}

/// Judges the wakeup lock by the most sends that executed at once.
pub fn check_wakeup_lock(state: &ServiceState) -> (r: Vec<Finding>)
    ensures
        findings::views(r@) == lock_findings(state@.max_sends_inside),
        findings::no_violation(findings::views(r@)) <==> state.max_sends_inside <= 1,
{
    let mut out: Vec<Finding> = Vec::new();
    let max_inside: u32 = state.max_sends_inside;
    report_coverage(&mut out, Coverage::WakeupLockSerialized, max_inside == 1);
    if max_inside > 1 {
        let mut detail = decimal_text(max_inside as u64);
        detail.append(" wakeup sends ran concurrently on one conversation");
        report_violation(&mut out, ViolationKind::WakeupLockDoubleHold, detail);
    }
    assert(findings::views(out@) =~= lock_findings(state@.max_sends_inside));
    proof {
        law_lock_breach(state@.max_sends_inside);
    }
    out
}

/// The memory is what the state holds, field by field.
pub proof fn law_memory_is_the_state(state: ServiceState)
    ensures
        state@.wakeups.len() == state.wakeups@.len(),
        forall|i: int|
            0 <= i < state.wakeups@.len() ==> #[trigger] state@.wakeups[i]
                == state.wakeups@[i].prompt@,
        state@.sandboxes.len() == state.sandboxes@.len(),
        forall|i: int|
            0 <= i < state.sandboxes@.len() ==> #[trigger] state@.sandboxes[i]
                == state.sandboxes@[i]@,
        state@.send_failures_remaining == state.send_failures_remaining,
        state@.commands_run == state.commands_run,
        state@.sends_inside == state.sends_inside,
        state@.max_sends_inside == state.max_sends_inside,
{
}

/// A path holds the artifact stored at it: its identifier and the contents of
/// its versions, oldest first. A path at which none is stored holds nothing.
pub proof fn law_paths_hold_what_is_stored(state: ServiceState, path: Seq<char>)
    requires
        state.wf(),
    ensures
        state@.artifacts.contains_key(path) <==> exists|i: int|
            0 <= i < state.artifacts@.len() && (#[trigger] state.artifacts@[i]).path@ == path,
        forall|i: int|
            0 <= i < state.artifacts@.len() && (#[trigger] state.artifacts@[i]).path@ == path ==> {
                let entry = state@.artifacts[path];
                let stored = state.artifacts@[i];
                &&& entry.id == stored.id@
                &&& entry.versions.len() == stored.versions@.len()
                &&& forall|k: int|
                    0 <= k < stored.versions@.len() ==> #[trigger] entry.versions[k]
                        == stored.versions@[k]@
            },
{
    lemma_by_path(state.artifacts@);
}

/// A version is described by its path, its identifier, its number and its size,
/// and by nothing else.
pub proof fn law_descriptions_are_exact(
    v: ArtifactVersion,
    path: Seq<char>,
    id: Seq<char>,
    version: nat,
    size: nat,
)
    ensures
        v.describes(path, id, version, size) <==> v.path@ == path && v.artifact_id@ == id && v.version
            == version && v.size_bytes == size,
{
}

/// Every received send adds one wakeup, whether its prompt was received before or
/// not: the prompt comes last, the earlier ones stay as they were, it occurs once
/// more than before and every other text as often. Nothing else changes.
pub proof fn law_received_send_adds_one_wakeup(v: ServiceView, prompt: Seq<char>, other: Seq<char>)
    ensures
        ({
            let w = v.after_received(prompt);
            &&& w.wakeups.len() == v.wakeups.len() + 1
            &&& w.wakeups.last() == prompt
            &&& forall|i: int| 0 <= i < v.wakeups.len() ==> #[trigger] w.wakeups[i] == v.wakeups[i]
            &&& w.wakeups.to_multiset().count(prompt) == v.wakeups.to_multiset().count(prompt) + 1
            &&& other != prompt ==> w.wakeups.to_multiset().count(other)
                == v.wakeups.to_multiset().count(other)
            &&& w.artifacts == v.artifacts
            &&& w.sandboxes == v.sandboxes
            &&& w.send_failures_remaining == v.send_failures_remaining
            &&& w.commands_run == v.commands_run
            &&& w.sends_inside == v.sends_inside
            &&& w.max_sends_inside == v.max_sends_inside
        }),
{
    vstd::seq_lib::to_multiset_build(v.wakeups, prompt);
    assert(v.after_received(prompt).wakeups =~= v.wakeups.push(prompt));
}

/// The memory after `n` received sends of one prompt.
pub open spec fn after_received_times(v: ServiceView, prompt: Seq<char>, n: nat) -> ServiceView
    decreases n,
{
    if n == 0 {
        v
    } else {
        after_received_times(v, prompt, (n - 1) as nat).after_received(prompt)
    }
}

/// A wakeup sent again is received again: after `n` received sends of one prompt
/// there are `n` wakeups more, and the prompt occurs `n` times more often.
pub proof fn law_repeated_sends_are_all_received(v: ServiceView, prompt: Seq<char>, n: nat)
    ensures
        ({
            let w = after_received_times(v, prompt, n);
            &&& w.wakeups.len() == v.wakeups.len() + n
            &&& w.wakeups.to_multiset().count(prompt) == v.wakeups.to_multiset().count(prompt) + n
        }),
    decreases n,
{
    if n > 0 {
        law_repeated_sends_are_all_received(v, prompt, (n - 1) as nat);
        law_received_send_adds_one_wakeup(
            after_received_times(v, prompt, (n - 1) as nat),
            prompt,
            prompt,
        );
    }
}

/// A failed send uses up one scripted failure, if any is left, and changes
/// nothing else: above all, no wakeup is received.
pub proof fn law_failed_send_receives_nothing(v: ServiceView)
    ensures
        ({
            let w = v.after_failed_send();
            &&& v.send_failures_remaining > 0 ==> w.send_failures_remaining + 1
                == v.send_failures_remaining
            &&& v.send_failures_remaining == 0 ==> w.send_failures_remaining == 0
            &&& w.wakeups == v.wakeups
            &&& w.artifacts == v.artifacts
            &&& w.sandboxes == v.sandboxes
            &&& w.commands_run == v.commands_run
            &&& w.sends_inside == v.sends_inside
            &&& w.max_sends_inside == v.max_sends_inside
        }),
{
}

/// Every write adds one version at the end of its path, even if the same contents
/// stand there already: the earlier versions and the identifier stay, a new path
/// gets the new identifier, and nothing but artifacts changes.
pub proof fn law_every_write_adds_a_version(
    v: ServiceView,
    path: Seq<char>,
    contents: Seq<u8>,
    fresh_id: Seq<char>,
)
    ensures
        ({
            let w = v.after_write(path, contents, fresh_id);
            let known = v.artifacts.contains_key(path);
            let before = v.artifacts[path];
            let after = w.artifacts[path];
            &&& w.artifacts.contains_key(path)
            &&& after.versions.last() == contents
            &&& !known ==> after.versions.len() == 1 && after.id == fresh_id
            &&& known ==> after.versions.len() == before.versions.len() + 1 && after.id == before.id
            &&& known ==> forall|k: int|
                0 <= k < before.versions.len() ==> #[trigger] after.versions[k] == before.versions[k]
            &&& w.sandboxes == v.sandboxes
            &&& w.wakeups == v.wakeups
            &&& w.send_failures_remaining == v.send_failures_remaining
            &&& w.commands_run == v.commands_run
            &&& w.sends_inside == v.sends_inside
            &&& w.max_sends_inside == v.max_sends_inside
        }),
{
}

/// What a read finds at a path: nothing beyond the versions there are; otherwise
/// the version asked for, counted from one, the first for zero and the last for
/// none, with its own contents, size and number.
pub proof fn law_reads_find_the_version_asked_for(
    v: ServiceView,
    path: Seq<char>,
    id: Seq<char>,
    version: Option<u64>,
    r: Option<Artifact>,
)
    requires
        v.holds(path, id),
        v.artifacts[path].versions.len() > 0,
        v.reads(path, id, version, r),
    ensures
        ({
            let versions = v.artifacts[path].versions;
            &&& v.artifacts.contains_key(path) && v.artifacts[path].id == id
            &&& r is None <==> (version matches Some(k) && k > versions.len())
            &&& r matches Some(a) ==> {
                &&& a.version.path@ == path
                &&& a.version.artifact_id@ == id
                &&& a.version.size_bytes == a.contents@.len()
                &&& version is None ==> a.contents@ == versions.last() && a.version.version
                    == versions.len()
                &&& version matches Some(k) ==> {
                    &&& a.version.version == k
                    &&& k == 0 ==> a.contents@ == versions[0]
                    &&& k > 0 ==> a.contents@ == versions[k - 1]
                }
            }
        }),
{
}

/// A created sandbox comes last among the sandboxes, the earlier ones stay, and
/// nothing else changes; an executed command is counted once and changes nothing
/// else.
pub proof fn law_sandboxes_and_commands_are_counted(v: ServiceView, id: Seq<char>)
    ensures
        ({
            let w = v.after_sandbox(id);
            &&& w.sandboxes.len() == v.sandboxes.len() + 1
            &&& w.sandboxes.last() == id
            &&& forall|i: int|
                0 <= i < v.sandboxes.len() ==> #[trigger] w.sandboxes[i] == v.sandboxes[i]
            &&& w == (ServiceView { sandboxes: w.sandboxes, ..v })
        }),
        v.after_command().commands_run == v.commands_run + 1,
        v.after_command() == (ServiceView { commands_run: v.commands_run + 1, ..v }),
{
}

/// A send that begins raises the number of executing sends by one and the
/// high-water mark to it where it was lower; one that stops lowers the number by
/// one and leaves the mark. Neither changes anything else.
pub proof fn law_sends_move_the_counters(v: ServiceView)
    ensures
        ({
            let w = v.after_enter();
            &&& w.sends_inside == v.sends_inside + 1
            &&& w.max_sends_inside >= v.max_sends_inside && w.max_sends_inside >= w.sends_inside
            &&& w.max_sends_inside == v.max_sends_inside || w.max_sends_inside == w.sends_inside
            &&& w == (ServiceView {
                sends_inside: w.sends_inside,
                max_sends_inside: w.max_sends_inside,
                ..v
            })
        }),
        v.sends_inside > 0 ==> v.after_leave().sends_inside + 1 == v.sends_inside,
        v.after_leave() == (ServiceView { sends_inside: v.after_leave().sends_inside, ..v }),
{
}

/// The lock check reports one breach, with the number of sends, exactly when more
/// than one send executed at once, however many; it observes serialised wakeups
/// exactly when the most was one.
pub proof fn law_lock_breach(max_inside: nat)
    ensures
        findings::details(lock_findings(max_inside), ViolationKind::WakeupLockDoubleHold) == (
        if max_inside >= 2 {
            seq![text::decimal(max_inside) + " wakeup sends ran concurrently on one conversation"@]
        } else {
            Seq::empty()
        }),
        findings::violation_count(lock_findings(max_inside)) == (if max_inside >= 2 {
            1nat
        } else {
            0nat
        }),
        findings::no_violation(lock_findings(max_inside)) <==> max_inside <= 1,
        findings::observations(lock_findings(max_inside), Coverage::WakeupLockSerialized) == seq![
            max_inside == 1,
        ],
{
    let o = FindingView::Observed(Coverage::WakeupLockSerialized, max_inside == 1);
    let detail = double_hold_detail(max_inside);
    let c = findings::breach_if(max_inside > 1, ViolationKind::WakeupLockDoubleHold, detail);
    findings::lemma_report_of_one(o);
    findings::lemma_report_of_breach(max_inside > 1, ViolationKind::WakeupLockDoubleHold, detail);
    findings::lemma_reports_concat(seq![o], c);
    findings::law_every_breach_counts(lock_findings(max_inside));
    findings::law_count_is_zero_without_breach(lock_findings(max_inside));
    assert(findings::details(lock_findings(max_inside), ViolationKind::WakeupLockDoubleHold) =~= (
    if max_inside >= 2 {
        seq![detail]
    } else {
        Seq::empty()
    }));
    assert(findings::observations(lock_findings(max_inside), Coverage::WakeupLockSerialized)
        =~= seq![max_inside == 1]);
}

/// Judging the lock after a run of sends, from a mark just reset and with nothing
/// executing: no breach is reported exactly when at no moment two or more sends
/// executed at once.
pub proof fn law_lock_check_is_exact(v: ServiceView, events: Seq<SendEvent>)
    requires
        v.sends_inside == 0,
        v.max_sends_inside == 0,
        sends_bracketed(0, events),
    ensures
        findings::no_violation(lock_findings(after_sends(v, events).max_sends_inside)) <==> forall|
            n: int,
        |
            0 <= n <= events.len() ==> events.take(n).filter(|e: SendEvent| e is Enter).len()
                <= 1 + (#[trigger] events.take(n)).filter(|e: SendEvent| e is Leave).len(),
{
    law_high_water_mark_is_exact(v, events, 2);
    law_lock_breach(after_sends(v, events).max_sends_inside);
    assert forall|n: int| 0 <= n <= events.len() implies inside_after(0, #[trigger] events.take(n))
        == events.take(n).filter(|e: SendEvent| e is Enter).len() - events.take(n).filter(
        |e: SendEvent| e is Leave,
    ).len() by {
        lemma_inside_counts(events.take(n));
    }
}

proof fn lemma_inside_counts(events: Seq<SendEvent>)
    ensures
        inside_after(0, events) == events.filter(|e: SendEvent| e is Enter).len() - events.filter(
            |e: SendEvent| e is Leave,
        ).len(),
    decreases events.len(),
{
    reveal(Seq::filter);
    if events.len() > 0 {
        lemma_inside_counts(events.drop_last());
    }
}

} // verus!
