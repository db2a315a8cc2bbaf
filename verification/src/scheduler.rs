//! The invariants of the task scheduler, judged on what a finished run left
//! behind.

use vstd::prelude::*;
use vstd::hash_map::StringHashMap;
use crate::findings;
use crate::findings::{report_coverage, report_violation, Coverage, Finding, FindingView, ViolationKind};
use crate::text;
use crate::text::{contains_text, count_text, decimal_text, join_texts, quoted_text};

verus! {

/// One fire of a task: the slot it belongs to and the wakeup it sends.
pub struct FireRecord {
    pub task_id: String,
    pub slot_ms: u64,
    pub prompt: String,
}

/// A fire, with its texts as characters.
pub struct FireView {
    pub task_id: Seq<char>,
    pub slot_ms: u64,
    pub prompt: Seq<char>,
}

impl View for FireRecord {
    type V = FireView;

    open spec fn view(&self) -> FireView {
        FireView { task_id: self.task_id@, slot_ms: self.slot_ms, prompt: self.prompt@ }
    }
}

/// A task as the store lists it.
pub struct TaskRecord {
    pub id: String,
    pub anchor_ms: u64,
    pub next_run_at_ms: u64,
    pub enabled: bool,
    pub leased: bool,
    pub completed: bool,
}

/// A task, with its identifier as characters.
pub struct TaskView {
    pub id: Seq<char>,
    pub anchor_ms: u64,
    pub next_run_at_ms: u64,
    pub enabled: bool,
    pub leased: bool,
    pub completed: bool,
}

impl View for TaskRecord {
    type V = TaskView;

    open spec fn view(&self) -> TaskView {
        TaskView {
            id: self.id@,
            anchor_ms: self.anchor_ms,
            next_run_at_ms: self.next_run_at_ms,
            enabled: self.enabled,
            leased: self.leased,
            completed: self.completed,
        }
    }
}

pub open spec fn fires(s: Seq<FireRecord>) -> Seq<FireView> {
    s.map_values(|f: FireRecord| f@)
}

pub open spec fn tasks(s: Seq<TaskRecord>) -> Seq<TaskView> {
    s.map_values(|t: TaskRecord| t@)
}

/// What the driver expects of the tasks it created: the period of each
/// recurring one, and which are one-shots.
pub struct TaskBook {
    pub intervals_ms: StringHashMap<u64>,
    pub one_shots: Vec<String>,
}

/// What a finished scheduler scenario left behind, read in this order: the
/// pending fires, the delivered fires, the tasks. A read that failed cuts the
/// rest off: `delivered_listed` says whether the delivered fires were read to
/// the end, and without that no task was read.
pub struct SchedulerAftermath {
    pub quiescence_clean: bool,
    pub wakeups: Vec<String>,
    pub pending: Vec<FireRecord>,
    pub delivered: Vec<FireRecord>,
    pub delivered_listed: bool,
    pub tasks: Vec<TaskRecord>,
}

/// A list of pending fires, written as pairs of task and slot.
pub open spec fn fire_pairs(s: Seq<FireView>) -> Seq<Seq<char>> {
    s.map_values(
        |f: FireView| "("@ + text::quoted(f.task_id) + ", "@ + text::decimal(f.slot_ms as nat) + ")"@,
    )
}

pub open spec fn stranded_detail(pending: Seq<FireView>) -> Seq<char> {
    "["@ + text::joined(fire_pairs(pending), ", "@) + "]"@
}

pub open spec fn fire_name(fire: FireView) -> Seq<char> {
    "fire ("@ + fire.task_id + ", "@ + text::decimal(fire.slot_ms as nat) + ")"@
}

pub open spec fn lost_detail(fire: FireView) -> Seq<char> {
    fire_name(fire) + " marked delivered but never received"@
}

pub open spec fn repeated_detail(fire: FireView, received: nat) -> Seq<char> {
    fire_name(fire) + " received "@ + text::decimal(received) + " times"@
}

pub open spec fn exceed_detail(wakeups: nat, delivered: nat) -> Seq<char> {
    text::decimal(wakeups) + " wakeups for "@ + text::decimal(delivered) + " delivered fires"@
}

pub open spec fn off_grid_detail(task: TaskView, interval_ms: u64) -> Seq<char> {
    "task "@ + task.id + " next="@ + text::decimal(task.next_run_at_ms as nat) + " anchor="@
        + text::decimal(task.anchor_ms as nat) + " interval="@ + text::decimal(interval_ms as nat)
}

/// Nothing is left pending after a clean recovery pass: a stranded pending fire
/// is a wakeup that the conversation will never get.
pub open spec fn pending_findings(quiescence_clean: bool, pending: Seq<FireView>) -> Seq<FindingView> {
    findings::breach_if(
        quiescence_clean && pending.len() > 0,
        ViolationKind::StrandedPendingFire,
        stranded_detail(pending),
    )
}

/// A delivered fire's wakeup reached the conversation, and did so at most
/// twice: once, plus the one repeat that a crash window allows.
pub open spec fn fire_findings(wakeups: Seq<Seq<char>>, fire: FireView) -> Seq<FindingView> {
    let received = text::occurrences(wakeups, fire.prompt);
    findings::breach_if(received == 0, ViolationKind::WakeupLost, lost_detail(fire))
        + seq![FindingView::Observed(Coverage::WakeupBoundedRepeat, received == 2)]
        + findings::breach_if(
        received > 2,
        ViolationKind::WakeupDupUnbounded,
        repeated_detail(fire, received),
    )
}

pub open spec fn delivered_findings(wakeups: Seq<Seq<char>>, delivered: Seq<FireView>) -> Seq<
    FindingView,
>
    decreases delivered.len(),
{
    if delivered.len() == 0 {
        Seq::empty()
    } else {
        delivered_findings(wakeups, delivered.drop_last()) + fire_findings(
            wakeups,
            delivered.last(),
        )
    }
}

/// The wakeups received do not exceed two for each delivered fire.
pub open spec fn total_findings(wakeups: nat, delivered: nat) -> Seq<FindingView> {
    seq![FindingView::Observed(Coverage::FiresDelivered, delivered > 0)] + findings::breach_if(
        wakeups > 2 * delivered,
        ViolationKind::WakeupsExceedFires,
        exceed_detail(wakeups, delivered),
    )
}

/// Whether the next run lies a whole number of periods after the anchor.
pub open spec fn on_grid(task: TaskView, interval_ms: u64) -> bool {
    &&& task.next_run_at_ms >= task.anchor_ms
    &&& (task.next_run_at_ms - task.anchor_ms) % interval_ms as int == 0
}

/// A recurring task sits on its grid.
pub open spec fn task_findings(
    intervals_ms: Map<Seq<char>, u64>,
    one_shots: Seq<Seq<char>>,
    task: TaskView,
) -> Seq<FindingView> {
    findings::breach_if(
        intervals_ms.contains_key(task.id) && !on_grid(task, intervals_ms[task.id]),
        ViolationKind::ResumeOffGrid,
        off_grid_detail(task, intervals_ms[task.id]),
    ) + seq![FindingView::Observed(Coverage::LeaseLiveAtQuiescence, task.enabled && task.leased)]
        + (if one_shots.contains(task.id) {
        seq![FindingView::Observed(Coverage::OneShotCompleted, task.completed)]
    } else {
        Seq::empty()
    })
}

pub open spec fn tasks_findings(
    intervals_ms: Map<Seq<char>, u64>,
    one_shots: Seq<Seq<char>>,
    tasks: Seq<TaskView>,
) -> Seq<FindingView>
    decreases tasks.len(),
{
    if tasks.len() == 0 {
        Seq::empty()
    } else {
        tasks_findings(intervals_ms, one_shots, tasks.drop_last()) + task_findings(
            intervals_ms,
            one_shots,
            tasks.last(),
        )
    }
}

/// Whether the grid test of every listed task divides by a period that is not
/// zero. A task whose next run lies before its anchor is off the grid without
/// any division.
pub open spec fn grid_defined(intervals_ms: Map<Seq<char>, u64>, tasks: Seq<TaskView>) -> bool {
    forall|i: int|
        #![trigger tasks[i]]
        0 <= i < tasks.len() && intervals_ms.contains_key(tasks[i].id)
            && tasks[i].next_run_at_ms >= tasks[i].anchor_ms ==> intervals_ms[tasks[i].id] != 0
}

impl SchedulerAftermath {
    /// Everything there is to report of the aftermath.
    pub open spec fn findings(&self, book: &TaskBook) -> Seq<FindingView> {
        let wakeups = text::texts(self.wakeups@);
        let delivered = fires(self.delivered@);
        pending_findings(self.quiescence_clean, fires(self.pending@)) + delivered_findings(
            wakeups,
            delivered,
        ) + (if self.delivered_listed {
            total_findings(wakeups.len(), delivered.len()) + tasks_findings(
                book.intervals_ms@,
                text::texts(book.one_shots@),
                tasks(self.tasks@),
            )
        } else {
            Seq::empty()
        })
    }
}

/// Writes the pending fires as pairs of task and slot.
fn stranded_text(pending: &Vec<FireRecord>) -> (r: String)
    ensures
        r@ == stranded_detail(fires(pending@)),
{
    let mut pairs: Vec<String> = Vec::new();
    let mut i: usize = 0;
    while i < pending.len()
        invariant
            i <= pending@.len(),
            text::texts(pairs@) == fire_pairs(fires(pending@)).take(i as int),
        decreases pending@.len() - i,
    {
        let mut pair = "(".to_owned();
        pair.append(quoted_text(pending[i].task_id.as_str()).as_str());
        pair.append(", ");
        pair.append(decimal_text(pending[i].slot_ms).as_str());
        pair.append(")");
        let ghost before = pairs@;
        pairs.push(pair);
        assert(text::texts(pairs@) =~= text::texts(before).push(pair@));
        assert(fire_pairs(fires(pending@)).take(i + 1) =~= fire_pairs(fires(pending@)).take(
            i as int,
        ).push(pair@));
        i = i + 1;
    }
    assert(fire_pairs(fires(pending@)).take(i as int) =~= fire_pairs(fires(pending@)));
    let mut r = "[".to_owned();
    r.append(join_texts(&pairs, ", ").as_str());
    r.append("]");
    r
}

/// Names a fire by task and slot.
fn fire_text(fire: &FireRecord) -> (r: String)
    ensures
        r@ == fire_name(fire@),
{
    let mut r = "fire (".to_owned();
    r.append(fire.task_id.as_str());
    r.append(", ");
    r.append(decimal_text(fire.slot_ms).as_str());
    r.append(")");
    r
}

/// Judges one delivered fire.
fn check_fire(out: &mut Vec<Finding>, wakeups: &Vec<String>, fire: &FireRecord)
    ensures
        findings::views(final(out)@) == findings::views(old(out)@) + fire_findings(
            text::texts(wakeups@),
            fire@,
        ),
{
    let received = count_text(wakeups, fire.prompt.as_str());
    if received == 0 {
        let mut detail = fire_text(fire);
        detail.append(" marked delivered but never received");
        report_violation(out, ViolationKind::WakeupLost, detail);
    }
    report_coverage(out, Coverage::WakeupBoundedRepeat, received == 2);
    if received > 2 {
        let mut detail = fire_text(fire);
        detail.append(" received ");
        detail.append(decimal_text(received as u64).as_str());
        detail.append(" times");
        report_violation(out, ViolationKind::WakeupDupUnbounded, detail);
    }
    assert(findings::views(out@) =~= findings::views(old(out)@) + fire_findings(
        text::texts(wakeups@),
        fire@,
    ));
}

/// Weighs the wakeups received against the fires delivered.
fn check_totals(out: &mut Vec<Finding>, wakeups: usize, delivered: usize)
    ensures
        findings::views(final(out)@) == findings::views(old(out)@) + total_findings(
            wakeups as nat,
            delivered as nat,
        ),
{
    report_coverage(out, Coverage::FiresDelivered, delivered > 0);
    if wakeups as u128 > 2 * (delivered as u128) {
        let mut detail = decimal_text(wakeups as u64);
        detail.append(" wakeups for ");
        detail.append(decimal_text(delivered as u64).as_str());
        detail.append(" delivered fires");
        report_violation(out, ViolationKind::WakeupsExceedFires, detail);
    }
    assert(findings::views(out@) =~= findings::views(old(out)@) + total_findings(
        wakeups as nat,
        delivered as nat,
    ));
}

/// Judges one listed task.
fn check_task(out: &mut Vec<Finding>, book: &TaskBook, task: &TaskRecord)
    requires
        grid_defined(book.intervals_ms@, seq![task@]),
    ensures
        findings::views(final(out)@) == findings::views(old(out)@) + task_findings(
            book.intervals_ms@,
            text::texts(book.one_shots@),
            task@,
        ),
{
    if let Some(interval) = book.intervals_ms.get(task.id.as_str()) {
        let interval_ms: u64 = *interval;
        assert(seq![task@][0] == task@);
        let settled = task.next_run_at_ms >= task.anchor_ms && (task.next_run_at_ms
            - task.anchor_ms) % interval_ms == 0;
        if !settled {
            let mut detail = "task ".to_owned();
            detail.append(task.id.as_str());
            detail.append(" next=");
            detail.append(decimal_text(task.next_run_at_ms).as_str());
            detail.append(" anchor=");
            detail.append(decimal_text(task.anchor_ms).as_str());
            detail.append(" interval=");
            detail.append(decimal_text(interval_ms).as_str());
            report_violation(out, ViolationKind::ResumeOffGrid, detail);
        }
    }
    report_coverage(out, Coverage::LeaseLiveAtQuiescence, task.enabled && task.leased);
    if contains_text(&book.one_shots, task.id.as_str()) {
        report_coverage(out, Coverage::OneShotCompleted, task.completed);
    }
    assert(findings::views(out@) =~= findings::views(old(out)@) + task_findings(
        book.intervals_ms@,
        text::texts(book.one_shots@),
        task@,
    ));
}

/// Judges the aftermath of a scheduler scenario.
pub fn check_scheduler_invariants(aftermath: &SchedulerAftermath, book: &TaskBook) -> (r: Vec<Finding>)
    requires
        aftermath.delivered_listed ==> grid_defined(book.intervals_ms@, tasks(aftermath.tasks@)),
    ensures
        findings::views(r@) == aftermath.findings(book),
{
    let ghost wakeups = text::texts(aftermath.wakeups@);
    let ghost delivered = fires(aftermath.delivered@);
    let ghost listed = tasks(aftermath.tasks@);
    let mut out: Vec<Finding> = Vec::new();
    if aftermath.quiescence_clean && aftermath.pending.len() > 0 {
        let detail = stranded_text(&aftermath.pending);
        report_violation(&mut out, ViolationKind::StrandedPendingFire, detail);
    }
    let ghost first = pending_findings(aftermath.quiescence_clean, fires(aftermath.pending@));
    assert(findings::views(out@) =~= first);
    let mut i: usize = 0;
    assert(first + delivered_findings(wakeups, delivered.take(0)) =~= first);
    while i < aftermath.delivered.len()
        invariant
            i <= aftermath.delivered@.len(),
            wakeups == text::texts(aftermath.wakeups@),
            delivered == fires(aftermath.delivered@),
            findings::views(out@) == first + delivered_findings(wakeups, delivered.take(i as int)),
        decreases aftermath.delivered@.len() - i,
    {
        check_fire(&mut out, &aftermath.wakeups, &aftermath.delivered[i]);
        proof {
            assert(delivered.take(i + 1).drop_last() =~= delivered.take(i as int));
            assert(delivered.take(i + 1).last() == aftermath.delivered@[i as int]@);
            assert(findings::views(out@) =~= first + delivered_findings(
                wakeups,
                delivered.take(i + 1),
            ));
        }
        i = i + 1;
    }
    assert(delivered.take(i as int) =~= delivered);
    let ghost second = first + delivered_findings(wakeups, delivered);
    if !aftermath.delivered_listed {
        assert(findings::views(out@) =~= aftermath.findings(book));
        return out;
    }
    check_totals(&mut out, aftermath.wakeups.len(), aftermath.delivered.len());
    let ghost third = second + total_findings(wakeups.len(), delivered.len());
    let ghost intervals = book.intervals_ms@;
    let ghost one_shots = text::texts(book.one_shots@);
    let mut j: usize = 0;
    assert(third + tasks_findings(intervals, one_shots, listed.take(0)) =~= third);
    while j < aftermath.tasks.len()
        invariant
            j <= aftermath.tasks@.len(),
            listed == tasks(aftermath.tasks@),
            intervals == book.intervals_ms@,
            one_shots == text::texts(book.one_shots@),
            grid_defined(intervals, listed),
            findings::views(out@) == third + tasks_findings(
                intervals,
                one_shots,
                listed.take(j as int),
            ),
        decreases aftermath.tasks@.len() - j,
    {
        assert(listed[j as int] == aftermath.tasks@[j as int]@);
        check_task(&mut out, book, &aftermath.tasks[j]);
        proof {
            assert(listed.take(j + 1).drop_last() =~= listed.take(j as int));
            assert(listed.take(j + 1).last() == aftermath.tasks@[j as int]@);
            assert(findings::views(out@) =~= third + tasks_findings(
                intervals,
                one_shots,
                listed.take(j + 1),
            ));
        }
        j = j + 1;
    }
    assert(listed.take(j as int) =~= listed);
    assert(findings::views(out@) =~= aftermath.findings(book));
    out
}

/// The scheduler's promises, stated of an aftermath at once: a clean recovery
/// leaves nothing pending, every delivered fire was received once or twice, the
/// wakeups do not outnumber what the delivered fires account for, and recurring
/// tasks sit on their grid.
pub open spec fn scheduler_sound(aftermath: &SchedulerAftermath, book: &TaskBook) -> bool {
    let wakeups = text::texts(aftermath.wakeups@);
    &&& aftermath.quiescence_clean ==> aftermath.pending@.len() == 0
    &&& forall|i: int|
        0 <= i < aftermath.delivered@.len() ==> 1 <= text::occurrences(
            wakeups,
            (#[trigger] aftermath.delivered@[i]).prompt@,
        ) <= 2
    &&& aftermath.delivered_listed ==> {
        &&& aftermath.wakeups@.len() <= 2 * aftermath.delivered@.len()
        &&& forall|i: int|
            0 <= i < aftermath.tasks@.len() && book.intervals_ms@.contains_key(
                (#[trigger] aftermath.tasks@[i]).id@,
            ) ==> on_grid(aftermath.tasks@[i]@, book.intervals_ms@[aftermath.tasks@[i].id@])
    }
}

proof fn lemma_delivered_clean(wakeups: Seq<Seq<char>>, delivered: Seq<FireView>)
    ensures
        findings::no_violation(delivered_findings(wakeups, delivered)) <==> forall|i: int|
            0 <= i < delivered.len() ==> 1 <= text::occurrences(
                wakeups,
                (#[trigger] delivered[i]).prompt,
            ) <= 2,
    decreases delivered.len(),
{
    if delivered.len() > 0 {
        let front = delivered.drop_last();
        let fire = delivered.last();
        let received = text::occurrences(wakeups, fire.prompt);
        let a = findings::breach_if(received == 0, ViolationKind::WakeupLost, lost_detail(fire));
        let b = seq![FindingView::Observed(Coverage::WakeupBoundedRepeat, received == 2)];
        let c = findings::breach_if(
            received > 2,
            ViolationKind::WakeupDupUnbounded,
            repeated_detail(fire, received),
        );
        lemma_delivered_clean(wakeups, front);
        findings::lemma_no_violation_concat(
            delivered_findings(wakeups, front),
            fire_findings(wakeups, fire),
        );
        findings::lemma_no_violation_concat(a + b, c);
        findings::lemma_no_violation_concat(a, b);
        findings::lemma_no_violation_breach(
            received == 0,
            ViolationKind::WakeupLost,
            lost_detail(fire),
        );
        findings::lemma_no_violation_breach(
            received > 2,
            ViolationKind::WakeupDupUnbounded,
            repeated_detail(fire, received),
        );
        assert forall|i: int| 0 <= i < front.len() implies front[i] == #[trigger] delivered[i] by {}
        if findings::no_violation(delivered_findings(wakeups, delivered)) {
            assert forall|i: int| 0 <= i < delivered.len() implies 1 <= text::occurrences(
                wakeups,
                (#[trigger] delivered[i]).prompt,
            ) <= 2 by {
                if i < front.len() {
                    assert(front[i] == delivered[i]);
                }
            }
        }
    }
}

proof fn lemma_tasks_clean(
    intervals_ms: Map<Seq<char>, u64>,
    one_shots: Seq<Seq<char>>,
    tasks: Seq<TaskView>,
)
    ensures
        findings::no_violation(tasks_findings(intervals_ms, one_shots, tasks)) <==> forall|i: int|
            0 <= i < tasks.len() && intervals_ms.contains_key((#[trigger] tasks[i]).id) ==> on_grid(
                tasks[i],
                intervals_ms[tasks[i].id],
            ),
    decreases tasks.len(),
{
    if tasks.len() > 0 {
        let front = tasks.drop_last();
        let task = tasks.last();
        let off = intervals_ms.contains_key(task.id) && !on_grid(task, intervals_ms[task.id]);
        let detail = off_grid_detail(task, intervals_ms[task.id]);
        let a = findings::breach_if(off, ViolationKind::ResumeOffGrid, detail);
        let b = seq![
            FindingView::Observed(Coverage::LeaseLiveAtQuiescence, task.enabled && task.leased),
        ];
        let c = if one_shots.contains(task.id) {
            seq![FindingView::Observed(Coverage::OneShotCompleted, task.completed)]
        } else {
            Seq::empty()
        };
        lemma_tasks_clean(intervals_ms, one_shots, front);
        findings::lemma_no_violation_concat(
            tasks_findings(intervals_ms, one_shots, front),
            task_findings(intervals_ms, one_shots, task),
        );
        findings::lemma_no_violation_concat(a + b, c);
        findings::lemma_no_violation_concat(a, b);
        findings::lemma_no_violation_breach(off, ViolationKind::ResumeOffGrid, detail);
        assert forall|i: int| 0 <= i < front.len() implies front[i] == #[trigger] tasks[i] by {}
        if findings::no_violation(tasks_findings(intervals_ms, one_shots, tasks)) {
            assert forall|i: int|
                0 <= i < tasks.len() && intervals_ms.contains_key(
                    (#[trigger] tasks[i]).id,
                ) implies on_grid(tasks[i], intervals_ms[tasks[i].id]) by {
                if i < front.len() {
                    assert(front[i] == tasks[i]);
                }
            }
        }
    }
}

/// The scheduler check reports a breach exactly when the aftermath breaks one
/// of the scheduler's promises.
pub proof fn law_scheduler_check_is_exact(aftermath: &SchedulerAftermath, book: &TaskBook)
    ensures
        findings::no_violation(aftermath.findings(book)) <==> scheduler_sound(aftermath, book),
{
    let wakeups = text::texts(aftermath.wakeups@);
    let pending = fires(aftermath.pending@);
    let delivered = fires(aftermath.delivered@);
    let listed = tasks(aftermath.tasks@);
    let intervals = book.intervals_ms@;
    let one_shots = text::texts(book.one_shots@);
    let first = pending_findings(aftermath.quiescence_clean, pending);
    let second = delivered_findings(wakeups, delivered);
    let totals = total_findings(wakeups.len(), delivered.len());
    let last = tasks_findings(intervals, one_shots, listed);
    let third = if aftermath.delivered_listed {
        totals + last
    } else {
        Seq::empty()
    };
    findings::lemma_no_violation_concat(first + second, third);
    findings::lemma_no_violation_concat(first, second);
    findings::lemma_no_violation_concat(totals, last);
    findings::lemma_no_violation_breach(
        aftermath.quiescence_clean && pending.len() > 0,
        ViolationKind::StrandedPendingFire,
        stranded_detail(pending),
    );
    let exceed = findings::breach_if(
        wakeups.len() > 2 * delivered.len(),
        ViolationKind::WakeupsExceedFires,
        exceed_detail(wakeups.len(), delivered.len()),
    );
    findings::lemma_no_violation_concat(
        seq![FindingView::Observed(Coverage::FiresDelivered, delivered.len() > 0)],
        exceed,
    );
    findings::lemma_no_violation_breach(
        wakeups.len() > 2 * delivered.len(),
        ViolationKind::WakeupsExceedFires,
        exceed_detail(wakeups.len(), delivered.len()),
    );
    lemma_delivered_clean(wakeups, delivered);
    lemma_tasks_clean(intervals, one_shots, listed);
    assert forall|i: int| 0 <= i < delivered.len() implies #[trigger] delivered[i]
        == aftermath.delivered@[i]@ by {}
    assert forall|i: int| 0 <= i < listed.len() implies #[trigger] listed[i]
        == aftermath.tasks@[i]@ by {}
    if scheduler_sound(aftermath, book) {
        assert forall|i: int| 0 <= i < delivered.len() implies 1 <= text::occurrences(
            wakeups,
            (#[trigger] delivered[i]).prompt,
        ) <= 2 by {
            assert(aftermath.delivered@[i].prompt@ == delivered[i].prompt);
        }
        if aftermath.delivered_listed {
            assert forall|i: int|
                0 <= i < listed.len() && intervals.contains_key(
                    (#[trigger] listed[i]).id,
                ) implies on_grid(listed[i], intervals[listed[i].id]) by {
                assert(aftermath.tasks@[i].id@ == listed[i].id);
            }
        }
    }
    if findings::no_violation(aftermath.findings(book)) {
        assert forall|i: int| 0 <= i < aftermath.delivered@.len() implies 1 <= text::occurrences(
            wakeups,
            (#[trigger] aftermath.delivered@[i]).prompt@,
        ) <= 2 by {
            assert(delivered[i].prompt == aftermath.delivered@[i].prompt@);
        }
        if aftermath.delivered_listed {
            assert forall|i: int|
                0 <= i < aftermath.tasks@.len() && intervals.contains_key(
                    (#[trigger] aftermath.tasks@[i]).id@,
                ) implies on_grid(
                aftermath.tasks@[i]@,
                intervals[aftermath.tasks@[i].id@],
            ) by {
                assert(listed[i].id == aftermath.tasks@[i].id@);
            }
        }
    }
}

/// What is reported of the delivered fires, kind by kind.
proof fn lemma_delivered_report(
    wakeups: Seq<String>,
    delivered: Seq<FireRecord>,
    lost: spec_fn(FireRecord) -> Option<Seq<char>>,
    repeated: spec_fn(FireRecord) -> Option<Seq<char>>,
    twice: spec_fn(FireRecord) -> bool,
)
    requires
        forall|f: FireRecord|
            #![trigger lost(f)]
            lost(f) == (if forall|j: int| 0 <= j < wakeups.len() ==> (#[trigger] wakeups[j])@ != f.prompt@ {
                Some(lost_detail(f@))
            } else {
                None
            }),
        forall|f: FireRecord|
            #![trigger repeated(f)]
            repeated(f) == (if wakeups.filter(|w: String| w@ == f.prompt@).len() > 2 {
                Some(repeated_detail(f@, wakeups.filter(|w: String| w@ == f.prompt@).len()))
            } else {
                None
            }),
        forall|f: FireRecord|
            #![trigger twice(f)]
            twice(f) == (wakeups.filter(|w: String| w@ == f.prompt@).len() == 2),
    ensures
        ({
            let report = delivered_findings(text::texts(wakeups), fires(delivered));
            &&& findings::details(report, ViolationKind::WakeupLost) == delivered.filter_map(lost)
            &&& findings::details(report, ViolationKind::WakeupDupUnbounded) == delivered.filter_map(
                repeated,
            )
            &&& forall|k: ViolationKind|
                k != ViolationKind::WakeupLost && k != ViolationKind::WakeupDupUnbounded
                    ==> #[trigger] findings::details(report, k) == Seq::<Seq<char>>::empty()
            &&& findings::observations(report, Coverage::WakeupBoundedRepeat) == delivered.map_values(
                twice,
            )
            &&& forall|p: Coverage|
                p != Coverage::WakeupBoundedRepeat ==> #[trigger] findings::observations(report, p)
                    == Seq::<bool>::empty()
        }),
    decreases delivered.len(),
{
    let all = text::texts(wakeups);
    findings::lemma_report_of_one(FindingView::Observed(Coverage::WakeupBoundedRepeat, true));
    if delivered.len() > 0 {
        let front = delivered.drop_last();
        let fire = delivered.last();
        let received = text::occurrences(all, fire@.prompt);
        lemma_delivered_report(wakeups, front, lost, repeated, twice);
        let prompt = fire.prompt@;
        text::law_occurrences_are_places(wakeups, prompt);
        assert((|w: String| w@ == prompt) =~= (|w: String| w@ == fire.prompt@));
        all.to_multiset_ensures();
        assert(all.contains(fire.prompt@) <==> received > 0);
        if received == 0 {
            assert forall|j: int| 0 <= j < wakeups.len() implies (#[trigger] wakeups[j])@ != fire.prompt@ by {
                assert(all[j] == wakeups[j]@);
            }
        } else {
            let j = choose|j: int| 0 <= j < all.len() && all[j] == fire.prompt@;
            assert(wakeups[j]@ == fire.prompt@);
        }
        assert(fires(delivered).drop_last() =~= fires(front));
        assert(fires(delivered).last() == fire@);
        let a = findings::breach_if(received == 0, ViolationKind::WakeupLost, lost_detail(fire@));
        let b = seq![FindingView::Observed(Coverage::WakeupBoundedRepeat, received == 2)];
        let c = findings::breach_if(
            received > 2,
            ViolationKind::WakeupDupUnbounded,
            repeated_detail(fire@, received),
        );
        findings::lemma_report_of_breach(
            received == 0,
            ViolationKind::WakeupLost,
            lost_detail(fire@),
        );
        findings::lemma_report_of_one(b[0]);
        findings::lemma_report_of_breach(
            received > 2,
            ViolationKind::WakeupDupUnbounded,
            repeated_detail(fire@, received),
        );
        findings::lemma_reports_concat(a, b);
        findings::lemma_reports_concat(a + b, c);
        findings::lemma_reports_concat(delivered_findings(all, fires(front)), fire_findings(all, fire@));
        assert(delivered.map_values(twice) =~= front.map_values(twice).push(twice(fire)));
        assert(lost(fire) is Some <==> received == 0);
        assert(repeated(fire) is Some <==> received > 2);
        let report = delivered_findings(all, fires(delivered));
        assert(findings::details(report, ViolationKind::WakeupLost) =~= delivered.filter_map(lost));
        assert(findings::details(report, ViolationKind::WakeupDupUnbounded) =~= delivered.filter_map(
            repeated,
        ));
        assert(findings::observations(report, Coverage::WakeupBoundedRepeat)
            =~= delivered.map_values(twice));
    }
}

/// What is reported of the listed tasks, kind by kind.
proof fn lemma_tasks_report(
    book: &TaskBook,
    listed: Seq<TaskRecord>,
    off: spec_fn(TaskRecord) -> Option<Seq<char>>,
    live: spec_fn(TaskRecord) -> bool,
    completed: spec_fn(TaskRecord) -> Option<bool>,
)
    requires
        forall|t: TaskRecord|
            #![trigger off(t)]
            off(t) == (if book.intervals_ms@.contains_key(t.id@) && !(t.next_run_at_ms >= t.anchor_ms
                && (t.next_run_at_ms - t.anchor_ms) % book.intervals_ms@[t.id@] as int == 0) {
                Some(off_grid_detail(t@, book.intervals_ms@[t.id@]))
            } else {
                None
            }),
        forall|t: TaskRecord| #![trigger live(t)] live(t) == (t.enabled && t.leased),
        forall|t: TaskRecord|
            #![trigger completed(t)]
            completed(t) == (if exists|j: int|
                0 <= j < book.one_shots@.len() && (#[trigger] book.one_shots@[j])@ == t.id@ {
                Some(t.completed)
            } else {
                None
            }),
    ensures
        ({
            let report = tasks_findings(
                book.intervals_ms@,
                text::texts(book.one_shots@),
                tasks(listed),
            );
            &&& findings::details(report, ViolationKind::ResumeOffGrid) == listed.filter_map(off)
            &&& forall|k: ViolationKind|
                k != ViolationKind::ResumeOffGrid ==> #[trigger] findings::details(report, k)
                    == Seq::<Seq<char>>::empty()
            &&& findings::observations(report, Coverage::LeaseLiveAtQuiescence) == listed.map_values(
                live,
            )
            &&& findings::observations(report, Coverage::OneShotCompleted) == listed.filter_map(
                completed,
            )
            &&& forall|p: Coverage|
                p != Coverage::LeaseLiveAtQuiescence && p != Coverage::OneShotCompleted
                    ==> #[trigger] findings::observations(report, p) == Seq::<bool>::empty()
        }),
    decreases listed.len(),
{
    let intervals = book.intervals_ms@;
    let one_shots = text::texts(book.one_shots@);
    findings::lemma_report_of_one(FindingView::Observed(Coverage::LeaseLiveAtQuiescence, true));
    if listed.len() > 0 {
        let front = listed.drop_last();
        let task = listed.last();
        lemma_tasks_report(book, front, off, live, completed);
        assert(tasks(listed).drop_last() =~= tasks(front));
        assert(tasks(listed).last() == task@);
        let is_off = intervals.contains_key(task@.id) && !on_grid(task@, intervals[task@.id]);
        let detail = off_grid_detail(task@, intervals[task@.id]);
        let a = findings::breach_if(is_off, ViolationKind::ResumeOffGrid, detail);
        let b = seq![
            FindingView::Observed(Coverage::LeaseLiveAtQuiescence, task@.enabled && task@.leased),
        ];
        let once = one_shots.contains(task@.id);
        let c = if once {
            seq![FindingView::Observed(Coverage::OneShotCompleted, task@.completed)]
        } else {
            Seq::empty()
        };
        if once {
            let j = choose|j: int| 0 <= j < one_shots.len() && one_shots[j] == task.id@;
            assert(book.one_shots@[j]@ == task.id@);
        } else {
            assert forall|j: int| 0 <= j < book.one_shots@.len() implies (
            #[trigger] book.one_shots@[j])@ != task.id@ by {
                assert(one_shots[j] == book.one_shots@[j]@);
            }
        }
        assert(completed(task) is Some <==> once);
        assert(off(task) is Some <==> is_off);
        findings::lemma_report_of_breach(is_off, ViolationKind::ResumeOffGrid, detail);
        findings::lemma_report_of_one(b[0]);
        findings::lemma_report_of_one(
            FindingView::Observed(Coverage::OneShotCompleted, task@.completed),
        );
        findings::lemma_reports_concat(a, b);
        findings::lemma_reports_concat(a + b, c);
        findings::lemma_reports_concat(
            tasks_findings(intervals, one_shots, tasks(front)),
            task_findings(intervals, one_shots, task@),
        );
        assert(listed.map_values(live) =~= front.map_values(live).push(live(task)));
        let report = tasks_findings(intervals, one_shots, tasks(listed));
        assert(findings::details(report, ViolationKind::ResumeOffGrid) =~= listed.filter_map(off));
        assert(findings::observations(report, Coverage::LeaseLiveAtQuiescence)
            =~= listed.map_values(live));
        assert(findings::observations(report, Coverage::OneShotCompleted) =~= listed.filter_map(
            completed,
        ));
    }
}

/// The breaches that the scheduler check reports, kind by kind and in order,
/// each judged on its own whatever else is wrong: one for a clean recovery that
/// left fires pending, which it lists; one for each delivered fire that no
/// wakeup matches; one for each that more than two wakeups match; one when there
/// are more than two wakeups to each delivered fire; and one for each listed task
/// of the book whose next run is no whole number of periods after its anchor. The
/// last two are judged only if the delivered fires were read to the end. Nothing
/// else is a breach, so the breaches are as many as these together.
pub proof fn law_scheduler_breaches(aftermath: &SchedulerAftermath, book: &TaskBook)
    ensures
        ({
            let report = aftermath.findings(book);
            let pending = aftermath.pending@;
            let delivered = aftermath.delivered@;
            let wakeups = aftermath.wakeups@;
            let listed = aftermath.tasks@;
            let stranded = if aftermath.quiescence_clean && pending.len() > 0 {
                seq![
                    "["@ + text::joined(
                        pending.map_values(
                            |f: FireRecord|
                                "("@ + text::quoted(f.task_id@) + ", "@ + text::decimal(
                                    f.slot_ms as nat,
                                ) + ")"@,
                        ),
                        ", "@,
                    ) + "]"@,
                ]
            } else {
                Seq::empty()
            };
            let lost = delivered.filter_map(
                |f: FireRecord|
                    if forall|j: int|
                        0 <= j < wakeups.len() ==> (#[trigger] wakeups[j])@ != f.prompt@ {
                        Some(
                            "fire ("@ + f.task_id@ + ", "@ + text::decimal(f.slot_ms as nat) + ")"@
                                + " marked delivered but never received"@,
                        )
                    } else {
                        None
                    },
            );
            let repeated = delivered.filter_map(
                |f: FireRecord|
                    if wakeups.filter(|w: String| w@ == f.prompt@).len() > 2 {
                        Some(
                            "fire ("@ + f.task_id@ + ", "@ + text::decimal(f.slot_ms as nat) + ")"@
                                + " received "@ + text::decimal(
                                wakeups.filter(|w: String| w@ == f.prompt@).len(),
                            ) + " times"@,
                        )
                    } else {
                        None
                    },
            );
            let excess = if aftermath.delivered_listed && wakeups.len() > 2 * delivered.len() {
                seq![
                    text::decimal(wakeups.len()) + " wakeups for "@ + text::decimal(delivered.len())
                        + " delivered fires"@,
                ]
            } else {
                Seq::empty()
            };
            let off_grid = if aftermath.delivered_listed {
                listed.filter_map(
                    |t: TaskRecord|
                        if book.intervals_ms@.contains_key(t.id@) && !(t.next_run_at_ms
                            >= t.anchor_ms && (t.next_run_at_ms - t.anchor_ms)
                            % book.intervals_ms@[t.id@] as int == 0) {
                            Some(
                                "task "@ + t.id@ + " next="@ + text::decimal(
                                    t.next_run_at_ms as nat,
                                ) + " anchor="@ + text::decimal(t.anchor_ms as nat)
                                    + " interval="@ + text::decimal(
                                    book.intervals_ms@[t.id@] as nat,
                                ),
                            )
                        } else {
                            None
                        },
                )
            } else {
                Seq::empty()
            };
            &&& findings::details(report, ViolationKind::StrandedPendingFire) == stranded
            &&& findings::details(report, ViolationKind::WakeupLost) == lost
            &&& findings::details(report, ViolationKind::WakeupDupUnbounded) == repeated
            &&& findings::details(report, ViolationKind::WakeupsExceedFires) == excess
            &&& findings::details(report, ViolationKind::ResumeOffGrid) == off_grid
            &&& findings::violation_count(report) == stranded.len() + lost.len() + repeated.len()
                + excess.len() + off_grid.len()
        }),
{
    lemma_scheduler_parts(aftermath, book);
    let report = aftermath.findings(book);
    let pending = aftermath.pending@;
    let wakeups = aftermath.wakeups@;
    assert(pending.map_values(
        |f: FireRecord|
            "("@ + text::quoted(f.task_id@) + ", "@ + text::decimal(f.slot_ms as nat) + ")"@,
    ) =~= fire_pairs(fires(pending)));
    lemma_delivered_report(
        wakeups,
        aftermath.delivered@,
        |f: FireRecord|
            if forall|j: int| 0 <= j < wakeups.len() ==> (#[trigger] wakeups[j])@ != f.prompt@ {
                Some(
                    "fire ("@ + f.task_id@ + ", "@ + text::decimal(f.slot_ms as nat) + ")"@
                        + " marked delivered but never received"@,
                )
            } else {
                None
            },
        |f: FireRecord|
            if wakeups.filter(|w: String| w@ == f.prompt@).len() > 2 {
                Some(
                    "fire ("@ + f.task_id@ + ", "@ + text::decimal(f.slot_ms as nat) + ")"@
                        + " received "@ + text::decimal(
                        wakeups.filter(|w: String| w@ == f.prompt@).len(),
                    ) + " times"@,
                )
            } else {
                None
            },
        |f: FireRecord| wakeups.filter(|w: String| w@ == f.prompt@).len() == 2,
    );
    lemma_tasks_report(
        book,
        aftermath.tasks@,
        |t: TaskRecord|
            if book.intervals_ms@.contains_key(t.id@) && !(t.next_run_at_ms >= t.anchor_ms && (
            t.next_run_at_ms - t.anchor_ms) % book.intervals_ms@[t.id@] as int == 0) {
                Some(
                    "task "@ + t.id@ + " next="@ + text::decimal(t.next_run_at_ms as nat)
                        + " anchor="@ + text::decimal(t.anchor_ms as nat) + " interval="@
                        + text::decimal(book.intervals_ms@[t.id@] as nat),
                )
            } else {
                None
            },
        |t: TaskRecord| t.enabled && t.leased,
        |t: TaskRecord|
            if exists|j: int|
                0 <= j < book.one_shots@.len() && (#[trigger] book.one_shots@[j])@ == t.id@ {
                Some(t.completed)
            } else {
                None
            },
    );
    findings::law_every_breach_counts(report);
}

/// The parts of the report, kind by kind.
proof fn lemma_scheduler_parts(aftermath: &SchedulerAftermath, book: &TaskBook)
    ensures
        ({
            let report = aftermath.findings(book);
            let wakeups = text::texts(aftermath.wakeups@);
            let fired = delivered_findings(wakeups, fires(aftermath.delivered@));
            let listed = if aftermath.delivered_listed {
                tasks_findings(
                    book.intervals_ms@,
                    text::texts(book.one_shots@),
                    tasks(aftermath.tasks@),
                )
            } else {
                Seq::empty()
            };
            let exceeding = aftermath.delivered_listed && aftermath.wakeups@.len() > 2
                * aftermath.delivered@.len();
            &&& forall|k: ViolationKind| #[trigger]
                findings::details(report, k) == (if k == ViolationKind::StrandedPendingFire
                    && aftermath.quiescence_clean && aftermath.pending@.len() > 0 {
                    seq![stranded_detail(fires(aftermath.pending@))]
                } else {
                    Seq::empty()
                }) + findings::details(fired, k) + (if k == ViolationKind::WakeupsExceedFires
                    && exceeding {
                    seq![exceed_detail(aftermath.wakeups@.len(), aftermath.delivered@.len())]
                } else {
                    Seq::empty()
                }) + findings::details(listed, k)
            &&& forall|p: Coverage| #[trigger]
                findings::observations(report, p) == findings::observations(fired, p) + (if p
                    == Coverage::FiresDelivered && aftermath.delivered_listed {
                    seq![aftermath.delivered@.len() > 0]
                } else {
                    Seq::empty()
                }) + findings::observations(listed, p)
            &&& forall|k: ViolationKind| #[trigger]
                findings::details(Seq::empty(), k) == Seq::<Seq<char>>::empty()
            &&& forall|p: Coverage| #[trigger]
                findings::observations(Seq::empty(), p) == Seq::<bool>::empty()
        }),
{
    let report = aftermath.findings(book);
    let wakeups = text::texts(aftermath.wakeups@);
    let pending = fires(aftermath.pending@);
    let delivered = fires(aftermath.delivered@);
    let stranded = aftermath.quiescence_clean && pending.len() > 0;
    let first = pending_findings(aftermath.quiescence_clean, pending);
    let fired = delivered_findings(wakeups, delivered);
    let seen = FindingView::Observed(Coverage::FiresDelivered, delivered.len() > 0);
    let exceeding = wakeups.len() > 2 * delivered.len();
    let excess = findings::breach_if(
        exceeding,
        ViolationKind::WakeupsExceedFires,
        exceed_detail(wakeups.len(), delivered.len()),
    );
    let listed = tasks_findings(
        book.intervals_ms@,
        text::texts(book.one_shots@),
        tasks(aftermath.tasks@),
    );
    findings::lemma_report_of_breach(
        stranded,
        ViolationKind::StrandedPendingFire,
        stranded_detail(pending),
    );
    findings::lemma_report_of_one(seen);
    findings::lemma_report_of_breach(
        exceeding,
        ViolationKind::WakeupsExceedFires,
        exceed_detail(wakeups.len(), delivered.len()),
    );
    findings::lemma_reports_concat(first, fired);
    findings::lemma_reports_concat(seq![seen], excess);
    findings::lemma_reports_concat(seq![seen] + excess, listed);
    let rest = if aftermath.delivered_listed {
        seq![seen] + excess + listed
    } else {
        Seq::empty()
    };
    findings::lemma_reports_concat(first + fired, rest);
    assert(report =~= first + fired + rest);
    assert forall|k: ViolationKind| #[trigger] findings::details(report, k) == (if k
        == ViolationKind::StrandedPendingFire && stranded {
        seq![stranded_detail(pending)]
    } else {
        Seq::empty()
    }) + findings::details(fired, k) + (if k == ViolationKind::WakeupsExceedFires
        && aftermath.delivered_listed && exceeding {
        seq![exceed_detail(wakeups.len(), delivered.len())]
    } else {
        Seq::empty()
    }) + findings::details(
        if aftermath.delivered_listed {
            listed
        } else {
            Seq::empty()
        },
        k,
    ) by {
        let a = findings::details(first, k);
        let b = findings::details(fired, k);
        let c = findings::details(excess, k);
        let d = findings::details(listed, k);
        assert(a + b + (Seq::<Seq<char>>::empty() + c + d) =~= a + b + c + d);
        assert(a + b + Seq::<Seq<char>>::empty() =~= a + b + Seq::<Seq<char>>::empty()
            + Seq::<Seq<char>>::empty());
    }
    assert forall|p: Coverage| #[trigger] findings::observations(report, p)
        == findings::observations(fired, p) + (if p == Coverage::FiresDelivered
        && aftermath.delivered_listed {
        seq![aftermath.delivered@.len() > 0]
    } else {
        Seq::empty()
    }) + findings::observations(
        if aftermath.delivered_listed {
            listed
        } else {
            Seq::empty()
        },
        p,
    ) by {
        let b = findings::observations(fired, p);
        let c = findings::observations(seq![seen], p);
        let d = findings::observations(listed, p);
        let none = Seq::<bool>::empty();
        assert(none + b + (c + none + d) =~= b + c + d);
        assert(none + b + none =~= b + none + none);
    }
}

/// What the scheduler check observes, in order: of each delivered fire whether
/// exactly two wakeups match it; whether there is a delivered fire at all; of each
/// listed task whether it is enabled and leased; and of each listed one-shot
/// whether it has completed. All but the first only if the delivered fires were
/// read to the end.
pub proof fn law_scheduler_observations(aftermath: &SchedulerAftermath, book: &TaskBook)
    ensures
        ({
            let report = aftermath.findings(book);
            let delivered = aftermath.delivered@;
            let wakeups = aftermath.wakeups@;
            let listed = aftermath.tasks@;
            &&& findings::observations(report, Coverage::WakeupBoundedRepeat)
                == delivered.map_values(
                |f: FireRecord| wakeups.filter(|w: String| w@ == f.prompt@).len() == 2,
            )
            &&& findings::observations(report, Coverage::FiresDelivered) == (
            if aftermath.delivered_listed {
                seq![delivered.len() > 0]
            } else {
                Seq::empty()
            })
            &&& findings::observations(report, Coverage::LeaseLiveAtQuiescence) == (
            if aftermath.delivered_listed {
                listed.map_values(|t: TaskRecord| t.enabled && t.leased)
            } else {
                Seq::empty()
            })
            &&& findings::observations(report, Coverage::OneShotCompleted) == (
            if aftermath.delivered_listed {
                listed.filter_map(
                    |t: TaskRecord|
                        if exists|j: int|
                            0 <= j < book.one_shots@.len() && (#[trigger] book.one_shots@[j])@
                                == t.id@ {
                            Some(t.completed)
                        } else {
                            None
                        },
                )
            } else {
                Seq::empty()
            })
            &&& findings::observations(report, Coverage::OutboxTerminalFailure).len() == 0
            &&& findings::observations(report, Coverage::WakeupLockSerialized).len() == 0
            &&& findings::observations(report, Coverage::UncommittedTailSurvived).len() == 0
        }),
{
    lemma_scheduler_parts(aftermath, book);
    let wakeups = aftermath.wakeups@;
    lemma_delivered_report(
        wakeups,
        aftermath.delivered@,
        |f: FireRecord|
            if forall|j: int| 0 <= j < wakeups.len() ==> (#[trigger] wakeups[j])@ != f.prompt@ {
                Some(lost_detail(f@))
            } else {
                None
            },
        |f: FireRecord|
            if wakeups.filter(|w: String| w@ == f.prompt@).len() > 2 {
                Some(repeated_detail(f@, wakeups.filter(|w: String| w@ == f.prompt@).len()))
            } else {
                None
            },
        |f: FireRecord| wakeups.filter(|w: String| w@ == f.prompt@).len() == 2,
    );
    lemma_tasks_report(
        book,
        aftermath.tasks@,
        |t: TaskRecord|
            if book.intervals_ms@.contains_key(t.id@) && !(t.next_run_at_ms >= t.anchor_ms && (
            t.next_run_at_ms - t.anchor_ms) % book.intervals_ms@[t.id@] as int == 0) {
                Some(off_grid_detail(t@, book.intervals_ms@[t.id@]))
            } else {
                None
            },
        |t: TaskRecord| t.enabled && t.leased,
        |t: TaskRecord|
            if exists|j: int|
                0 <= j < book.one_shots@.len() && (#[trigger] book.one_shots@[j])@ == t.id@ {
                Some(t.completed)
            } else {
                None
            },
    );
}

/// A task is on its grid exactly when it runs next some whole number of periods
/// after its anchor.
pub proof fn law_grid_is_whole_periods(task: TaskView, interval_ms: u64)
    requires
        interval_ms > 0,
    ensures
        on_grid(task, interval_ms) <==> exists|n: nat|
            task.next_run_at_ms == task.anchor_ms + #[trigger] (n * interval_ms),
{
    let gap = task.next_run_at_ms - task.anchor_ms;
    let m = interval_ms as int;
    if on_grid(task, interval_ms) {
        vstd::arithmetic::div_mod::lemma_fundamental_div_mod(gap, m);
        vstd::arithmetic::mul::lemma_mul_is_commutative(m, gap / m);
        let n = (gap / m) as nat;
        assert(gap / m >= 0) by {
            vstd::arithmetic::div_mod::lemma_div_pos_is_pos(gap, m);
        }
        assert(task.next_run_at_ms == task.anchor_ms + n * interval_ms);
    }
    if exists|n: nat| task.next_run_at_ms == task.anchor_ms + #[trigger] (n * interval_ms) {
        let n = choose|n: nat| task.next_run_at_ms == task.anchor_ms + #[trigger] (n * interval_ms);
        vstd::arithmetic::div_mod::lemma_mod_multiples_basic(n as int, m);
        vstd::arithmetic::mul::lemma_mul_nonnegative(n as int, m);
    }
}

proof fn lemma_delivered_prefix(wakeups: Seq<Seq<char>>, delivered: Seq<FireView>, k: int)
    requires
        0 <= k <= delivered.len(),
    ensures
        delivered_findings(wakeups, delivered.take(k)).is_prefix_of(
            delivered_findings(wakeups, delivered),
        ),
    decreases delivered.len(),
{
    if k == delivered.len() {
        assert(delivered.take(k) =~= delivered);
    } else {
        let front = delivered.drop_last();
        lemma_delivered_prefix(wakeups, front, k);
        assert(front.take(k) =~= delivered.take(k));
        let a = delivered_findings(wakeups, delivered.take(k));
        let b = delivered_findings(wakeups, front);
        let c = delivered_findings(wakeups, delivered);
        assert(c.take(a.len() as int) =~= b.take(a.len() as int));
    }
}

/// The report follows the order in which the aftermath was read: what is
/// reported of a run whose reading broke off at some delivered fire is what a
/// full report of the same run begins with.
pub proof fn law_report_follows_the_reading(
    broken_off: &SchedulerAftermath,
    full: &SchedulerAftermath,
    k: int,
    book: &TaskBook,
)
    requires
        0 <= k <= full.delivered@.len(),
        broken_off.delivered@ == full.delivered@.take(k),
        !broken_off.delivered_listed,
        broken_off.quiescence_clean == full.quiescence_clean,
        broken_off.pending@ == full.pending@,
        broken_off.wakeups@ == full.wakeups@,
    ensures
        broken_off.findings(book).is_prefix_of(full.findings(book)),
{
    let wakeups = text::texts(full.wakeups@);
    let delivered = fires(full.delivered@);
    lemma_delivered_prefix(wakeups, delivered, k);
    assert(fires(broken_off.delivered@) =~= delivered.take(k));
    let p = pending_findings(full.quiescence_clean, fires(full.pending@));
    let a = broken_off.findings(book);
    let b = full.findings(book);
    let d = delivered_findings(wakeups, delivered.take(k));
    let e = delivered_findings(wakeups, delivered);
    assert(a =~= p + d);
    assert(e.take(d.len() as int) =~= d);
    assert forall|i: int| 0 <= i < a.len() implies a[i] == b[i] by {
        if i >= p.len() {
            assert(e.take(d.len() as int)[i - p.len()] == e[i - p.len()]);
        }
    }
    assert(b.take(a.len() as int) =~= a);
}

/// Fires and tasks are judged by what their records say.
pub proof fn law_records_are_judged_as_they_stand(fire: FireRecord, task: TaskRecord)
    ensures
        fire@.task_id == fire.task_id@,
        fire@.slot_ms == fire.slot_ms,
        fire@.prompt == fire.prompt@,
        task@.id == task.id@,
        task@.anchor_ms == task.anchor_ms,
        task@.next_run_at_ms == task.next_run_at_ms,
        task@.enabled == task.enabled,
        task@.leased == task.leased,
        task@.completed == task.completed,
{
}

} // verus!
