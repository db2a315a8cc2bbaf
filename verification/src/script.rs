//! Scripted sandbox commands. They are drawn up front, so that a workload is a
//! pure function of the run seed.

use vstd::prelude::*;
use crate::service::{clone_bytes, ServiceError, ServiceState};

verus! {

/// The scripted behaviour of one sandbox command.
#[derive(Debug)]
pub struct CommandScript {
    pub stdout: Vec<u8>,
    pub stderr: Vec<u8>,
    pub exit_code: i32,
    /// How long the command runs before it exits, in virtual time.
    pub run_millis: u64,
}

/// A script, with its outputs as sequences.
#[verifier::ext_equal]
pub struct ScriptView {
    pub stdout: Seq<u8>,
    pub stderr: Seq<u8>,
    pub exit_code: i32,
    pub run_millis: u64,
}

impl View for CommandScript {
    type V = ScriptView;

    open spec fn view(&self) -> ScriptView {
        ScriptView {
            stdout: self.stdout@,
            stderr: self.stderr@,
            exit_code: self.exit_code,
            run_millis: self.run_millis,
        }
    }
}

pub open spec fn script_views(s: Seq<CommandScript>) -> Seq<ScriptView> {
    s.map_values(|c: CommandScript| c@)
}

/// What a command does that no script was drawn for: it prints `ok` and
/// succeeds after 50 milliseconds.
pub open spec fn default_script() -> ScriptView {
    ScriptView {
        stdout: seq!['o' as u8, 'k' as u8],
        stderr: Seq::empty(),
        exit_code: 0,
        run_millis: 50,
    }
}

impl Default for CommandScript {
    fn default() -> (r: Self)
        ensures
            r@ == default_script(),
    {
        let mut stdout: Vec<u8> = Vec::new();
        stdout.push('o' as u8);
        stdout.push('k' as u8);
        let r = CommandScript { stdout, stderr: Vec::new(), exit_code: 0, run_millis: 50 };
        assert(r@ =~= default_script());
        r
    }
}

impl Clone for CommandScript {
    fn clone(&self) -> (r: Self)
        ensures
            r@ == self@,
    {
        CommandScript {
            stdout: clone_bytes(&self.stdout),
            stderr: clone_bytes(&self.stderr),
            exit_code: self.exit_code,
            run_millis: self.run_millis,
        }
    }
}

/// Copies a list of scripts.
pub fn clone_scripts(scripts: &Vec<CommandScript>) -> (r: Vec<CommandScript>)
    ensures
        script_views(r@) == script_views(scripts@),
{
    let mut out: Vec<CommandScript> = Vec::new();
    let mut i: usize = 0;
    while i < scripts.len()
        invariant
            i <= scripts@.len(),
            script_views(out@) == script_views(scripts@).take(i as int),
        decreases scripts@.len() - i,
    {
        let copy = scripts[i].clone();
        let ghost before = out@;
        out.push(copy);
        assert(script_views(out@) =~= script_views(before).push(copy@));
        assert(script_views(scripts@).take(i + 1) =~= script_views(scripts@).take(i as int).push(
            copy@,
        ));
        i = i + 1;
    }
    assert(script_views(scripts@).take(i as int) =~= script_views(scripts@));
    out
}

/// The script of the command in place `i`: the one drawn for it, or the default
/// once the drawn ones are used up.
pub open spec fn script_at(scripts: Seq<ScriptView>, i: int) -> ScriptView {
    if 0 <= i < scripts.len() {
        scripts[i]
    } else {
        default_script()
    }
}

/// A command that runs in a sandbox.
pub struct FakeSandboxProcess {
    pub script: CommandScript,
}

/// What a sandbox process is made of: what its streams hold, and how long it
/// takes to exit with which code.
pub struct ProcessParts {
    pub stdout: Vec<u8>,
    pub stderr: Vec<u8>,
    pub stdin: Vec<u8>,
    pub run_millis: u64,
    pub exit_code: i32,
}

impl FakeSandboxProcess {
    /// Takes the process apart.
    pub fn into_parts(self) -> (r: ProcessParts)
        ensures
            r.stdout@ == self.script@.stdout,
            r.stderr@ == self.script@.stderr,
            r.stdin@ == Seq::<u8>::empty(),
            r.run_millis == self.script@.run_millis,
            r.exit_code == self.script@.exit_code,
    {
        ProcessParts {
            stdout: self.script.stdout,
            stderr: self.script.stderr,
            stdin: Vec::new(),
            run_millis: self.script.run_millis,
            exit_code: self.script.exit_code,
        }
    }
}

/// Hands out command scripts in order.
pub struct ScriptSource {
    pub scripts: Vec<CommandScript>,
    pub cursor: usize,
}

/// A source of scripts, as the scripts it has and its place among them.
#[verifier::ext_equal]
pub struct SourceView {
    pub scripts: Seq<ScriptView>,
    pub cursor: nat,
}

impl View for ScriptSource {
    type V = SourceView;

    open spec fn view(&self) -> SourceView {
        SourceView { scripts: script_views(self.scripts@), cursor: self.cursor as nat }
    }
}

impl SourceView {
    /// The script that comes next.
    pub open spec fn upcoming(self) -> ScriptView {
        script_at(self.scripts, self.cursor as int)
    }

    /// The source once that script is handed out.
    pub open spec fn moved_on(self) -> SourceView {
        SourceView { cursor: self.cursor + 1, ..self }
    }
}

/// A source that hands out `scripts` from the first on.
pub fn next_script_fn(scripts: &Vec<CommandScript>) -> (r: ScriptSource)
    ensures
        r@ == (SourceView { scripts: script_views(scripts@), cursor: 0 }),
{
    ScriptSource { scripts: clone_scripts(scripts), cursor: 0 }
}

impl ScriptSource {
    /// Hands out the next script, and counts the command that runs it.
    pub fn take(&mut self, state: &mut ServiceState) -> (r: CommandScript)
        requires
            old(self).cursor < usize::MAX,
            old(state).commands_run < u64::MAX,
        ensures
            r@ == old(self)@.upcoming(),
            final(self)@ == old(self)@.moved_on(),
            final(state).artifacts == old(state).artifacts,
            final(state)@ == old(state)@.after_command(),
    {
        state.note_command();
        let script = if self.cursor < self.scripts.len() {
            self.scripts[self.cursor].clone()
        } else {
            CommandScript::default()
        };
        self.cursor = self.cursor + 1;
        script
    }

    /// Starts a command in a sandbox, unless the fault strikes.
    pub fn run_in_sandbox(&mut self, state: &mut ServiceState, fault: bool) -> (r: Result<
        FakeSandboxProcess,
        ServiceError,
    >)
        requires
            !fault ==> old(self).cursor < usize::MAX,
            !fault ==> old(state).commands_run < u64::MAX,
        ensures
            final(state).artifacts == old(state).artifacts,
            match r {
                Ok(process) => {
                    &&& !fault
                    &&& process.script@ == old(self)@.upcoming()
                    &&& final(self)@ == old(self)@.moved_on()
                    &&& final(state)@ == old(state)@.after_command()
                },
                Err(e) => {
                    &&& fault
                    &&& e == ServiceError::SandboxRunFailed
                    &&& final(self)@ == old(self)@
                    &&& final(state)@ == old(state)@
                },
            },
    {
        if fault {
            return Err(ServiceError::SandboxRunFailed);
        }
        let script = self.take(state);
        Ok(FakeSandboxProcess { script })
    }
}

/// The source after handing out `n` scripts.
pub open spec fn moved_on_by(source: SourceView, n: nat) -> SourceView
    decreases n,
{
    if n == 0 {
        source
    } else {
        moved_on_by(source, (n - 1) as nat).moved_on()
    }
}

/// A source hands the drawn scripts out in order, each once, and the default
/// from then on, however many commands a run asks for.
pub proof fn law_scripts_come_in_order(scripts: Seq<ScriptView>, n: nat)
    ensures
        moved_on_by(SourceView { scripts, cursor: 0 }, n).upcoming() == (if n < scripts.len() {
            scripts[n as int]
        } else {
            default_script()
        }),
{
    lemma_moved_on_by(SourceView { scripts, cursor: 0 }, n);
}

proof fn lemma_moved_on_by(source: SourceView, n: nat)
    ensures
        moved_on_by(source, n) == (SourceView { cursor: source.cursor + n, ..source }),
    decreases n,
{
    if n > 0 {
        lemma_moved_on_by(source, (n - 1) as nat);
    }
}

/// A script is what its record says, field by field.
pub proof fn law_scripts_are_read_as_they_stand(scripts: Seq<CommandScript>)
    ensures
        script_views(scripts).len() == scripts.len(),
        forall|i: int|
            0 <= i < scripts.len() ==> {
                let view = #[trigger] script_views(scripts)[i];
                &&& view.stdout == scripts[i].stdout@
                &&& view.stderr == scripts[i].stderr@
                &&& view.exit_code == scripts[i].exit_code
                &&& view.run_millis == scripts[i].run_millis
            },
{
}

/// A source hands out the script at its place and moves on by one, whatever the
/// script; the scripts it has stay. Past the last one it hands out a command that
/// prints `ok`, nothing on the error stream, and succeeds after 50 milliseconds.
pub proof fn law_a_source_moves_on_by_one(source: SourceView)
    ensures
        source.moved_on().cursor == source.cursor + 1,
        source.moved_on().scripts == source.scripts,
        source.cursor < source.scripts.len() ==> source.upcoming()
            == source.scripts[source.cursor as int],
        source.cursor >= source.scripts.len() ==> source.upcoming().stdout == seq![111u8, 107u8],
        source.cursor >= source.scripts.len() ==> source.upcoming().stderr.len() == 0,
        source.cursor >= source.scripts.len() ==> source.upcoming().exit_code == 0,
        source.cursor >= source.scripts.len() ==> source.upcoming().run_millis == 50,
{
}

} // verus!
