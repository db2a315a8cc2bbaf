//! The workload of a scheduler run, derived from the run seed: tasks with
//! varied schedules and policies, and the scripts of the commands they run.

use vstd::prelude::*;
use vstd::hash_map::StringHashMap;
use crate::prng;
use crate::prng::Prng;
use crate::schedule;
use crate::schedule::{at_schedule, every_schedule, parse_every_secs};
use crate::scheduler;
use crate::scheduler::TaskBook;
use crate::script::{CommandScript, ScriptView};
use crate::text;
use crate::text::decimal_text;

verus! {

broadcast use {prng::lemma_advance_compose, prng::lemma_draw_compose};

/// How many command scripts a workload draws.
pub const SCRIPT_COUNT: u64 = 64;

/// What happens to the runs that a scheduler missed.
#[derive(Clone, Copy, Debug, PartialEq, Eq, Structural)]
pub enum MissedPolicy {
    Skip,
    Once,
    All,
}

/// A task to be created.
pub struct NewScheduledTask {
    pub agent_id: String,
    pub conversation_id: String,
    pub name: String,
    pub schedule: String,
    /// The sandbox mode, where the task asks for one.
    pub sandbox_mode: Option<String>,
    pub setup_command: Option<Vec<String>>,
    pub command: Vec<String>,
    pub report_prompt: String,
    pub max_output_bytes: Option<u64>,
    pub missed: Option<MissedPolicy>,
}

/// A task to be created, and whether it runs only once.
pub struct TaskPlan {
    pub request: NewScheduledTask,
    pub one_shot: bool,
}

/// A workload.
pub struct Workload {
    pub scripts: Vec<CommandScript>,
    pub tasks: Vec<TaskPlan>,
}

/// A byte, `n` times.
pub open spec fn repeated(byte: u8, n: nat) -> Seq<u8> {
    Seq::new(n, |i: int| byte)
}

/// The script drawn from state `s`.
pub open spec fn script_drawn(s: u64) -> ScriptView {
    let noisy = prng::hits(prng::draw(s, 1), 200);
    let rest: nat = if noisy {
        3
    } else {
        2
    };
    ScriptView {
        stdout: repeated('o' as u8, prng::in_range(prng::draw(s, 0), 0, 4096) as nat),
        stderr: if noisy {
            repeated('e' as u8, prng::in_range(prng::draw(s, 2), 1, 512) as nat)
        } else {
            Seq::empty()
        },
        exit_code: if prng::hits(prng::draw(s, rest), 150) {
            1
        } else {
            0
        },
        run_millis: prng::in_range(prng::draw(s, rest + 1), 5, 400),
    }
}

/// How many draws the script takes.
pub open spec fn script_draws(s: u64) -> nat {
    if prng::hits(prng::draw(s, 1), 200) {
        5
    } else {
        4
    }
}

/// The state after drawing `n` scripts.
pub open spec fn after_scripts(s: u64, n: nat) -> u64
    decreases n,
{
    if n == 0 {
        s
    } else {
        let t = after_scripts(s, (n - 1) as nat);
        prng::advance(t, script_draws(t))
    }
}

/// The policy that a draw selects.
pub open spec fn missed_drawn(d: u64) -> MissedPolicy {
    if d % 3 == 0 {
        MissedPolicy::Skip
    } else if d % 3 == 1 {
        MissedPolicy::Once
    } else {
        MissedPolicy::All
    }
}

/// The schedule drawn from state `s`.
pub open spec fn schedule_drawn(s: u64) -> Seq<char> {
    if prng::hits(prng::draw(s, 0), 250) {
        schedule::at_form(prng::in_range(prng::draw(s, 1), 2, 20) as nat)
    } else {
        schedule::every_form(prng::in_range(prng::draw(s, 1), 2, 10) as nat)
    }
}

pub open spec fn task_label(index: nat) -> Seq<char> {
    "task-"@ + text::decimal(index)
}

/// How many draws a task takes.
pub open spec fn task_draws() -> nat {
    5
}

impl TaskPlan {
    /// Whether this is task `index`, drawn from state `s`, for the given agent
    /// and conversation.
    pub open spec fn drawn_from(
        self,
        s: u64,
        index: nat,
        agent_id: Seq<char>,
        conversation_id: Seq<char>,
    ) -> bool {
        let r = self.request;
        &&& self.one_shot == prng::hits(prng::draw(s, 0), 250)
        &&& r.agent_id@ == agent_id
        &&& r.conversation_id@ == conversation_id
        &&& r.name@ == task_label(index)
        &&& r.schedule@ == schedule_drawn(s)
        &&& r.sandbox_mode is None
        &&& r.missed == Some(missed_drawn(prng::draw(s, 2)))
        &&& match r.setup_command {
            Some(command) => prng::hits(prng::draw(s, 3), 300) && text::texts(command@) == seq![
                "setup"@,
            ],
            None => !prng::hits(prng::draw(s, 3), 300),
        }
        &&& text::texts(r.command@) == seq!["work"@]
        &&& r.report_prompt@ == "Report for "@ + task_label(index) + "."@
        &&& r.max_output_bytes == Some(prng::in_range(prng::draw(s, 4), 64, 8192))
    }
}

/// How many tasks a workload has that is drawn from seed `s`.
pub open spec fn task_count_drawn(s: u64) -> nat {
    prng::in_range(prng::draw(s, 0), 2, 4) as nat
}

/// The state from which the first task is drawn.
pub open spec fn before_tasks(s: u64) -> u64 {
    after_scripts(prng::advance(s, 1), SCRIPT_COUNT as nat)
}

/// The state after the whole workload is drawn.
pub open spec fn after_workload(s: u64) -> u64 {
    prng::advance(before_tasks(s), task_draws() * task_count_drawn(s))
}

/// A byte, `n` times.
fn repeat_byte(byte: u8, n: u64) -> (r: Vec<u8>)
    requires
        n <= 0xffff,
    ensures
        r@ == repeated(byte, n as nat),
{
    let r = vec![byte; n as usize];
    assert(r@ =~= repeated(byte, n as nat));
    r
}

/// Draws a script.
fn draw_script(rng: &mut Prng) -> (r: CommandScript)
    ensures
        r@ == script_drawn(old(rng).0),
        final(rng).0 == prng::advance(old(rng).0, script_draws(old(rng).0)),
{
    let ghost s = rng.0;
    let stdout_len = rng.range(0, 4096);
    let stdout = repeat_byte('o' as u8, stdout_len);
    let stderr = if rng.chance(200) {
        let stderr_len = rng.range(1, 512);
        repeat_byte('e' as u8, stderr_len)
    } else {
        Vec::new()
    };
    let exit_code: i32 = if rng.chance(150) {
        1
    } else {
        0
    };
    let run_millis = rng.range(5, 400);
    let r = CommandScript { stdout, stderr, exit_code, run_millis };
    assert(r@ =~= script_drawn(s));
    r
}

/// A list of one text.
fn single(t: &str) -> (r: Vec<String>)
    ensures
        text::texts(r@) == seq![t@],
{
    let mut r: Vec<String> = Vec::new();
    r.push(t.to_owned());
    assert(text::texts(r@) =~= seq![t@]);
    r
}

/// The name of task `index`.
fn task_label_text(index: u64) -> (r: String)
    ensures
        r@ == task_label(index as nat),
{
    let mut r = "task-".to_owned();
    r.append(decimal_text(index).as_str());
    r
}

/// Draws a task.
fn draw_task(rng: &mut Prng, index: u64, agent_id: &str, conversation_id: &str) -> (r: TaskPlan)
    ensures
        r.drawn_from(old(rng).0, index as nat, agent_id@, conversation_id@),
        final(rng).0 == prng::advance(old(rng).0, task_draws()),
{
    let one_shot = rng.chance(250);
    let schedule = if one_shot {
        at_schedule(rng.range(2, 20))
    } else {
        every_schedule(rng.range(2, 10))
    };
    let pick: u64 = rng.next() % 3;
    let missed = if pick == 0 {
        MissedPolicy::Skip
    } else if pick == 1 {
        MissedPolicy::Once
    } else {
        MissedPolicy::All
    };
    let setup_command = if rng.chance(300) {
        Some(single("setup"))
    } else {
        None
    };
    let mut report_prompt = "Report for ".to_owned();
    report_prompt.append(task_label_text(index).as_str());
    report_prompt.append(".");
    let max_output_bytes = rng.range(64, 8192);
    TaskPlan {
        request: NewScheduledTask {
            agent_id: agent_id.to_owned(),
            conversation_id: conversation_id.to_owned(),
            name: task_label_text(index),
            schedule,
            sandbox_mode: None,
            setup_command,
            command: single("work"),
            report_prompt,
            max_output_bytes: Some(max_output_bytes),
            missed: Some(missed),
        },
        one_shot,
    }
}

/// Draws the workload of a run. It is a function of the generator's state, the
/// agent and the conversation alone.
pub fn draw_workload(rng: &mut Prng, agent_id: &str, conversation_id: &str) -> (r: Workload)
    ensures
        r.scripts@.len() == SCRIPT_COUNT,
        forall|i: int|
            0 <= i < r.scripts@.len() ==> (#[trigger] r.scripts@[i])@ == script_drawn(
                after_scripts(prng::advance(old(rng).0, 1), i as nat),
            ),
        r.tasks@.len() == task_count_drawn(old(rng).0),
        forall|i: int|
            0 <= i < r.tasks@.len() ==> (#[trigger] r.tasks@[i]).drawn_from(
                prng::advance(before_tasks(old(rng).0), task_draws() * (i as nat)),
                i as nat,
                agent_id@,
                conversation_id@,
            ),
        final(rng).0 == after_workload(old(rng).0),
        forall|i: int|
            0 <= i < r.tasks@.len() ==> (#[trigger] r.tasks@[i]).request.report_prompt@
                == "Report for "@ + r.tasks@[i].request.name@ + "."@,
        forall|i: int, j: int|
            0 <= i < j < r.tasks@.len() ==> (#[trigger] r.tasks@[i]).request.name@ != (
            #[trigger] r.tasks@[j]).request.name@,
{
    let ghost seed = rng.0;
    let task_count = rng.range(2, 4);
    let ghost s = rng.0;
    let mut scripts: Vec<CommandScript> = Vec::new();
    let mut i: u64 = 0;
    while i < SCRIPT_COUNT
        invariant
            i <= SCRIPT_COUNT,
            scripts@.len() == i,
            rng.0 == after_scripts(s, i as nat),
            forall|k: int|
                0 <= k < i ==> (#[trigger] scripts@[k])@ == script_drawn(
                    after_scripts(s, k as nat),
                ),
        decreases SCRIPT_COUNT - i,
    {
        scripts.push(draw_script(rng));
        i = i + 1;
    }
    let ghost t = rng.0;
    let mut tasks: Vec<TaskPlan> = Vec::new();
    let mut j: u64 = 0;
    assert(prng::advance(t, 0) == t);
    while j < task_count
        invariant
            j <= task_count,
            tasks@.len() == j,
            rng.0 == prng::advance(t, task_draws() * (j as nat)),
            forall|k: int|
                0 <= k < j ==> (#[trigger] tasks@[k]).drawn_from(
                    prng::advance(t, task_draws() * (k as nat)),
                    k as nat,
                    agent_id@,
                    conversation_id@,
                ),
        decreases task_count - j,
    {
        tasks.push(draw_task(rng, j, agent_id, conversation_id));
        j = j + 1;
    }
    proof {
        assert forall|a: int, b: int| 0 <= a < b < tasks@.len() implies (
        #[trigger] tasks@[a]).request.name@ != (#[trigger] tasks@[b]).request.name@ by {
            if tasks@[a].request.name@ == tasks@[b].request.name@ {
                law_task_names_are_distinct(a as nat, b as nat);
            }
        }
    }
    Workload { scripts, tasks }
}

impl TaskBook {
    /// A book without tasks.
    pub fn new() -> (r: Self)
        ensures
            r.intervals_ms@ == Map::<Seq<char>, u64>::empty(),
            r.one_shots@.len() == 0,
    {
        TaskBook { intervals_ms: StringHashMap::new(), one_shots: Vec::new() }
    }

    /// Enters a created task: a one-shot by its identifier, a recurring one with
    /// its period.
    pub fn record(&mut self, id: String, plan: &TaskPlan)
        requires
            !plan.one_shot ==> (schedule::every_secs(plan.request.schedule@) matches Some(secs)
                ==> secs * 1000 <= u64::MAX),
        ensures
            text::texts(final(self).one_shots@) == (if plan.one_shot {
                text::texts(old(self).one_shots@).push(id@)
            } else {
                text::texts(old(self).one_shots@)
            }),
            final(self).intervals_ms@ == (if plan.one_shot {
                old(self).intervals_ms@
            } else {
                match schedule::every_secs(plan.request.schedule@) {
                    Some(secs) => old(self).intervals_ms@.insert(id@, (secs * 1000) as u64),
                    None => old(self).intervals_ms@,
                }
            }),
    {
        if plan.one_shot {
            self.one_shots.push(id);
            assert(text::texts(self.one_shots@) =~= text::texts(old(self).one_shots@).push(id@));
        } else if let Some(secs) = parse_every_secs(plan.request.schedule.as_str()) {
            self.intervals_ms.insert(id, secs * 1000);
        }
    }
}

/// A recurring task of a workload has a period of two to ten seconds that is
/// read back off its schedule, and a one-shot has none.
pub proof fn law_planned_periods(
    plan: TaskPlan,
    s: u64,
    index: nat,
    agent_id: Seq<char>,
    conversation_id: Seq<char>,
)
    requires
        plan.drawn_from(s, index, agent_id, conversation_id),
    ensures
        plan.one_shot ==> schedule::every_secs(plan.request.schedule@) is None,
        !plan.one_shot ==> (schedule::every_secs(plan.request.schedule@) matches Some(secs) && 2
            <= secs <= 10),
{
    if plan.one_shot {
        schedule::law_one_shot_has_no_period(prng::in_range(prng::draw(s, 1), 2, 20) as nat);
    } else {
        let secs = prng::in_range(prng::draw(s, 1), 2, 10);
        schedule::law_every_round_trip(secs);
    }
}

/// Every task of a workload has a name of its own.
pub proof fn law_task_names_are_distinct(i: nat, j: nat)
    requires
        task_label(i) == task_label(j),
    ensures
        i == j,
{
    reveal_strlit("task-");
    assert(task_label(i).skip(5) =~= text::decimal(i));
    assert(task_label(j).skip(5) =~= text::decimal(j));
    text::lemma_decimal_injective(i, j);
}

/// Entering the tasks of a workload keeps every period in the book above zero,
/// so that the grid test of the scheduler check is defined for any listing.
pub proof fn law_recorded_periods_are_positive(
    before: Map<Seq<char>, u64>,
    id: Seq<char>,
    plan: TaskPlan,
    s: u64,
    index: nat,
    agent_id: Seq<char>,
    conversation_id: Seq<char>,
    listed: Seq<scheduler::TaskView>,
)
    requires
        plan.drawn_from(s, index, agent_id, conversation_id),
        !plan.one_shot,
        forall|k: Seq<char>| #[trigger] before.contains_key(k) ==> before[k] > 0,
    ensures
        schedule::every_secs(plan.request.schedule@) matches Some(secs) && secs * 1000 <= u64::MAX
            && {
            let after = before.insert(id, (secs * 1000) as u64);
            &&& forall|k: Seq<char>| #[trigger] after.contains_key(k) ==> after[k] > 0
            &&& scheduler::grid_defined(after, listed)
        },
{
    law_planned_periods(plan, s, index, agent_id, conversation_id);
}

/// What a drawn task asks for: it is named after its place and asks for a report
/// under that very name; it belongs to the agent and the conversation given; it
/// runs `work`, perhaps with `setup` before it, in no sandbox mode of its own.
pub proof fn law_drawn_task(
    plan: TaskPlan,
    s: u64,
    index: nat,
    agent_id: Seq<char>,
    conversation_id: Seq<char>,
)
    requires
        plan.drawn_from(s, index, agent_id, conversation_id),
    ensures
        plan.request.name@ == "task-"@ + text::decimal(index),
        plan.request.report_prompt@ == "Report for "@ + plan.request.name@ + "."@,
        plan.request.agent_id@ == agent_id,
        plan.request.conversation_id@ == conversation_id,
        plan.request.command@.len() == 1,
        plan.request.command@[0]@ == "work"@,
        plan.request.setup_command matches Some(setup) ==> setup@.len() == 1 && setup@[0]@
            == "setup"@,
        plan.request.sandbox_mode is None,
{
    let label = task_label(index);
    assert(plan.request.name@ == label);
    assert(plan.request.report_prompt@ == "Report for "@ + label + "."@);
    lemma_single_text(plan.request.command@, "work"@);
    if let Some(setup) = plan.request.setup_command {
        lemma_single_text(setup@, "setup"@);
    }
}

proof fn lemma_single_text(list: Seq<String>, t: Seq<char>)
    requires
        text::texts(list) == seq![t],
    ensures
        list.len() == 1,
        list[0]@ == t,
{
    assert(text::texts(list).len() == 1);
    assert(text::texts(list)[0] == list[0]@);
}

/// What is drawn for a task, by remainders: a one-shot in 250 cases of a
/// thousand, due two to 20 seconds into the epoch, and otherwise a period of two
/// to ten seconds; one of the three policies for missed runs; a setup command in
/// 300 cases; and an output of 64 to 8192 bytes.
pub proof fn law_drawn_choices(
    plan: TaskPlan,
    s: u64,
    index: nat,
    agent_id: Seq<char>,
    conversation_id: Seq<char>,
)
    requires
        plan.drawn_from(s, index, agent_id, conversation_id),
    ensures
        plan.one_shot <==> prng::draw(s, 0) % 1000 < 250,
        plan.one_shot ==> plan.request.schedule@ == schedule::at_form(
            (2 + prng::draw(s, 1) % 19) as nat,
        ),
        !plan.one_shot ==> plan.request.schedule@ == "@every "@ + text::decimal(
            (2 + prng::draw(s, 1) % 9) as nat,
        ) + "s"@,
        prng::draw(s, 2) % 3 == 0 ==> plan.request.missed == Some(MissedPolicy::Skip),
        prng::draw(s, 2) % 3 == 1 ==> plan.request.missed == Some(MissedPolicy::Once),
        prng::draw(s, 2) % 3 == 2 ==> plan.request.missed == Some(MissedPolicy::All),
        plan.request.setup_command is Some <==> prng::draw(s, 3) % 1000 < 300,
        plan.request.max_output_bytes == Some((64 + prng::draw(s, 4) % 8129) as u64),
{
    let second = prng::draw(s, 1);
    assert(prng::in_range(second, 2, 20) == 2 + second % 19);
    assert(prng::in_range(second, 2, 10) == 2 + second % 9);
    assert(prng::in_range(prng::draw(s, 4), 64, 8192) == 64 + prng::draw(s, 4) % 8129);
}

/// Tasks drawn for different places have different names and ask for different
/// reports.
pub proof fn law_reports_tell_tasks_apart(
    a: TaskPlan,
    b: TaskPlan,
    s: u64,
    t: u64,
    i: nat,
    j: nat,
    agent_id: Seq<char>,
    conversation_id: Seq<char>,
)
    requires
        i != j,
        a.drawn_from(s, i, agent_id, conversation_id),
        b.drawn_from(t, j, agent_id, conversation_id),
    ensures
        a.request.name@ != b.request.name@,
        a.request.report_prompt@ != b.request.report_prompt@,
{
    law_drawn_task(a, s, i, agent_id, conversation_id);
    law_drawn_task(b, t, j, agent_id, conversation_id);
    if a.request.name@ == b.request.name@ {
        law_task_names_are_distinct(i, j);
    }
    if a.request.report_prompt@ == b.request.report_prompt@ {
        reveal_strlit("Report for ");
        reveal_strlit(".");
        assert(a.request.report_prompt@.skip(11).drop_last() =~= a.request.name@);
        assert(b.request.report_prompt@.skip(11).drop_last() =~= b.request.name@);
    }
}

/// What a drawn script does: it prints up to 4096 bytes `o`; in 200 cases of a
/// thousand also one to 512 bytes `e` on the error stream; it fails with code one
/// in 150 cases; and it runs five to 400 milliseconds.
pub proof fn law_drawn_script(s: u64)
    ensures
        ({
            let script = script_drawn(s);
            let noisy = prng::draw(s, 1) % 1000 < 200;
            let k: nat = if noisy {
                3
            } else {
                2
            };
            &&& script.stdout.len() == prng::draw(s, 0) % 4097
            &&& forall|i: int| 0 <= i < script.stdout.len() ==> #[trigger] script.stdout[i] == 111
            &&& !noisy ==> script.stderr.len() == 0
            &&& noisy ==> script.stderr.len() == 1 + prng::draw(s, 2) % 512
            &&& forall|i: int| 0 <= i < script.stderr.len() ==> #[trigger] script.stderr[i] == 101
            &&& prng::draw(s, k) % 1000 < 150 ==> script.exit_code == 1
            &&& prng::draw(s, k) % 1000 >= 150 ==> script.exit_code == 0
            &&& script.run_millis == 5 + prng::draw(s, k + 1) % 396
            &&& script_draws(s) == k + 2
        }),
{
}

/// Scripts are drawn one behind the other from one stream: drawing some and then
/// more is drawing them all, and each takes up where the last one stopped.
pub proof fn law_scripts_share_a_stream(s: u64, m: nat, n: nat)
    ensures
        after_scripts(s, 0) == s,
        after_scripts(s, 1) == prng::advance(s, script_draws(s)),
        after_scripts(s, m + n) == after_scripts(after_scripts(s, m), n),
    decreases n,
{
    reveal_with_fuel(after_scripts, 2);
    if n > 0 {
        law_scripts_share_a_stream(s, m, (n - 1) as nat);
        assert((m + n - 1) as nat == m + (n - 1) as nat);
    }
}

/// The shape of a workload: two to four tasks by the first draw, 64 scripts from
/// the second on, and five draws for each task behind them.
pub proof fn law_workload_shape(s: u64)
    ensures
        task_count_drawn(s) == 2 + prng::draw(s, 0) % 3,
        before_tasks(s) == after_scripts(prng::advance(s, 1), 64),
        after_workload(s) == prng::advance(before_tasks(s), 5 * task_count_drawn(s)),
{
}

} // verus!
