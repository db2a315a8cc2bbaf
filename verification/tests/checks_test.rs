use patina_guest::findings::{count_violations, Coverage, Finding, ViolationKind};
use patina_guest::litter::{litter_note, LitterWalk};
use patina_guest::outbox::{check_outbox_invariants, DirListing, OutboxDir};
use patina_guest::scheduler::{
    check_scheduler_invariants, FireRecord, SchedulerAftermath, TaskBook, TaskRecord,
};

fn strings(list: &[&str]) -> Vec<String> {
    list.iter().map(|s| s.to_string()).collect()
}

fn fire(task_id: &str, slot_ms: u64, prompt: &str) -> FireRecord {
    FireRecord { task_id: task_id.to_string(), slot_ms, prompt: prompt.to_string() }
}

fn task(id: &str, anchor_ms: u64, next_run_at_ms: u64) -> TaskRecord {
    TaskRecord {
        id: id.to_string(),
        anchor_ms,
        next_run_at_ms,
        enabled: true,
        leased: false,
        completed: false,
    }
}

fn aftermath() -> SchedulerAftermath {
    SchedulerAftermath {
        quiescence_clean: true,
        wakeups: Vec::new(),
        pending: Vec::new(),
        delivered: Vec::new(),
        delivered_listed: true,
        tasks: Vec::new(),
    }
}

fn book() -> TaskBook {
    let mut book = TaskBook::new();
    book.intervals_ms.insert("t1".to_string(), 2000);
    book.one_shots.push("t2".to_string());
    book
}

fn violations(findings: &[Finding]) -> Vec<(ViolationKind, String)> {
    findings
        .iter()
        .filter_map(|f| match f {
            Finding::Violation(kind, detail) => Some((*kind, detail.clone())),
            Finding::Observed(..) => None,
        })
        .collect()
}

fn observed(findings: &[Finding]) -> Vec<(Coverage, bool)> {
    findings
        .iter()
        .filter_map(|f| match f {
            Finding::Violation(..) => None,
            Finding::Observed(point, reached) => Some((*point, *reached)),
        })
        .collect()
}

#[test]
fn a_sound_aftermath_has_no_breach() {
    let mut a = aftermath();
    a.wakeups = strings(&["p1", "p2", "p2"]);
    a.delivered = vec![fire("t1", 1, "p1"), fire("t1", 2, "p2")];
    a.tasks = vec![task("t1", 500, 6500), task("t2", 0, 1), task("t3", 9, 1)];
    a.tasks[1].completed = true;
    a.tasks[2].leased = true;
    let found = check_scheduler_invariants(&a, &book());
    assert!(violations(&found).is_empty());
    assert_eq!(
        observed(&found),
        vec![
            (Coverage::WakeupBoundedRepeat, false),
            (Coverage::WakeupBoundedRepeat, true),
            (Coverage::FiresDelivered, true),
            (Coverage::LeaseLiveAtQuiescence, false),
            (Coverage::LeaseLiveAtQuiescence, false),
            (Coverage::OneShotCompleted, true),
            (Coverage::LeaseLiveAtQuiescence, true),
        ]
    );
}

#[test]
fn stranded_pending_fires() {
    let mut a = aftermath();
    a.pending = vec![fire("t1", 7, "p"), fire("a\"b\n", 8, "q")];
    let found = check_scheduler_invariants(&a, &book());
    let expected: Vec<(String, u64)> = vec![("t1".to_string(), 7), ("a\"b\n".to_string(), 8)];
    assert_eq!(
        violations(&found),
        vec![(ViolationKind::StrandedPendingFire, format!("{:?}", expected))]
    );
    a.quiescence_clean = false;
    assert!(violations(&check_scheduler_invariants(&a, &book())).is_empty());
}

#[test]
fn lost_and_repeated_wakeups() {
    let mut a = aftermath();
    a.wakeups = strings(&["p", "p", "p"]);
    a.delivered = vec![fire("t1", 1, "gone"), fire("t1", 2, "p")];
    assert_eq!(
        violations(&check_scheduler_invariants(&a, &book())),
        vec![
            (
                ViolationKind::WakeupLost,
                "fire (t1, 1) marked delivered but never received".to_string()
            ),
            (ViolationKind::WakeupDupUnbounded, "fire (t1, 2) received 3 times".to_string()),
        ]
    );
}

#[test]
fn wakeups_beyond_the_fires() {
    let mut a = aftermath();
    a.wakeups = strings(&["p", "q", "r"]);
    a.delivered = vec![fire("t1", 1, "p")];
    assert_eq!(
        violations(&check_scheduler_invariants(&a, &book())),
        vec![(ViolationKind::WakeupsExceedFires, "3 wakeups for 1 delivered fires".to_string())]
    );
    a.delivered_listed = false;
    let found = check_scheduler_invariants(&a, &book());
    assert!(violations(&found).is_empty());
    assert_eq!(observed(&found), vec![(Coverage::WakeupBoundedRepeat, false)]);
}

#[test]
fn off_grid_tasks() {
    let mut a = aftermath();
    a.tasks = vec![task("t1", 500, 2501), task("t1", 500, 499), task("t1", 500, 500)];
    assert_eq!(
        violations(&check_scheduler_invariants(&a, &book())),
        vec![
            (
                ViolationKind::ResumeOffGrid,
                "task t1 next=2501 anchor=500 interval=2000".to_string()
            ),
            (
                ViolationKind::ResumeOffGrid,
                "task t1 next=499 anchor=500 interval=2000".to_string()
            ),
        ]
    );
}

fn listing(dir: OutboxDir, names: &[&str]) -> DirListing {
    DirListing { dir, names: strings(names) }
}

#[test]
fn conserved_messages() {
    let all = vec![
        listing(OutboxDir::Outbox, &["m1.json", "x.tmp"]),
        listing(OutboxDir::Inflight, &["m2.json"]),
        listing(OutboxDir::Delivered, &["m3.json", "m3.json.tmp"]),
        listing(OutboxDir::Failed, &["notes.txt"]),
    ];
    let found = check_outbox_invariants(&all, &strings(&["m1", "m2", "m3"]));
    assert!(violations(&found).is_empty());
    assert_eq!(observed(&found), vec![(Coverage::OutboxTerminalFailure, false)]);
}

#[test]
fn lost_and_multiplied_messages() {
    let all = vec![
        listing(OutboxDir::Outbox, &["m1.json"]),
        listing(OutboxDir::Inflight, &["m2.txt"]),
        listing(OutboxDir::Delivered, &["m1.json", "m3.json"]),
        listing(OutboxDir::Failed, &["m1.json"]),
    ];
    let found = check_outbox_invariants(&all, &strings(&["m1", "m2", "m3"]));
    assert_eq!(
        violations(&found),
        vec![
            (
                ViolationKind::OutboxMessageMultiplied,
                "message m1 is in [\"outbox\", \"delivered\", \"failed\"]".to_string()
            ),
            (
                ViolationKind::OutboxMessageLost,
                "message m2 is in no outbox directory".to_string()
            ),
        ]
    );
    assert_eq!(observed(&found), vec![(Coverage::OutboxTerminalFailure, true)]);
    assert_eq!(OutboxDir::Inflight.label(), "inflight");
}

#[test]
fn labels_are_stable() {
    let labels: Vec<&str> = [
        ViolationKind::StrandedPendingFire,
        ViolationKind::WakeupLost,
        ViolationKind::WakeupDupUnbounded,
        ViolationKind::WakeupsExceedFires,
        ViolationKind::ResumeOffGrid,
        ViolationKind::OutboxMessageLost,
        ViolationKind::OutboxMessageMultiplied,
        ViolationKind::WakeupLockDoubleHold,
        ViolationKind::AckedEventLost,
        ViolationKind::HeadBehindEvents,
    ]
    .iter()
    .map(|k| k.label())
    .collect();
    assert_eq!(
        labels,
        vec![
            "sched-stranded-pending-fire",
            "sched-wakeup-lost",
            "sched-wakeup-dup-unbounded",
            "sched-wakeups-exceed-fires",
            "sched-resume-off-grid",
            "outbox-message-lost",
            "outbox-message-multiplied",
            "wakeup-lock-double-hold",
            "eventlog-acked-event-lost",
            "eventlog-head-behind-events",
        ]
    );
}

#[test]
fn a_walk_counts_every_staging_file() {
    // root: a.tmp, sub/, b.json; root/sub: c.tmp, deep.tmp/; root/sub/deep.tmp: d.tmp, .tmp
    let list = |dir: &str| -> Vec<(&'static str, bool)> {
        match dir {
            "root" => vec![("a.tmp", false), ("sub", true), ("b.json", false)],
            "root/sub" => vec![("c.tmp", false), ("deep.tmp", true)],
            "root/sub/deep.tmp" => vec![("d.tmp", false), (".tmp", false)],
            _ => panic!("unknown directory {}", dir),
        }
    };
    let mut walk = LitterWalk::new("root".to_string());
    let mut visited = 0;
    while let Some(dir) = walk.next_dir() {
        visited += 1;
        for (name, is_dir) in list(&dir) {
            walk.entry(format!("{}/{}", dir, name), name, is_dir);
        }
    }
    assert_eq!(visited, 3);
    assert_eq!(walk.litter, 3);
    assert_eq!(
        litter_note("sched-tmp-litter", walk.litter),
        Some("sched-tmp-litter: 3 stranded staging file(s)".to_string())
    );
    assert_eq!(litter_note("sched-tmp-litter", 0), None);
}

#[test]
fn a_walk_goes_depth_first() {
    let mut walk = LitterWalk::new(0u32);
    assert_eq!(walk.next_dir(), Some(0));
    walk.entry(1, "one", true);
    walk.entry(2, "two", true);
    assert_eq!(walk.next_dir(), Some(2));
    assert_eq!(walk.next_dir(), Some(1));
    assert_eq!(walk.next_dir(), None);
}

#[test]
fn breaches_are_counted() {
    let mut a = aftermath();
    a.pending = vec![fire("t1", 7, "p")];
    a.delivered = vec![fire("t1", 1, "gone"), fire("t1", 2, "gone too")];
    assert_eq!(count_violations(&check_scheduler_invariants(&a, &book())), 3);
    assert_eq!(count_violations(&check_scheduler_invariants(&aftermath(), &book())), 0);
    assert_eq!(count_violations(&Vec::new()), 0);
}
