use patina_guest::prng::Prng;
use patina_guest::scenario::{
    drain_again, draw_message_count, draw_round_pause_ms, lock_file_name, lock_probe_prompt, message_text,
    quiescence_wait_ms, PassEnd, PassPlan, Quiescence, Retry, RoundPlan, SchedulerScenario, DECISIONS_PER_ROUND,
};
use patina_guest::scheduler::TaskBook;
use patina_guest::workload::{draw_workload, MissedPolicy, Workload};

fn workload(seed: u64) -> (Workload, u64) {
    let mut rng = Prng(seed);
    let drawn = draw_workload(&mut rng, "agent-id", "conversation-id");
    (drawn, rng.0)
}

fn script(w: &Workload, i: usize) -> (usize, usize, i32, u64) {
    let s = &w.scripts[i];
    (s.stdout.len(), s.stderr.len(), s.exit_code, s.run_millis)
}

#[test]
fn workload_of_a_seed() {
    let (w, state) = workload(7);
    assert_eq!(state, 0x23c28382b5ec2368);
    assert_eq!(w.scripts.len(), 64);
    assert_eq!(script(&w, 0), (2761, 0, 0, 111));
    assert_eq!(script(&w, 1), (2273, 0, 0, 238));
    assert_eq!(script(&w, 2), (498, 301, 0, 369));
    assert_eq!(script(&w, 63), (2106, 489, 0, 55));
    assert!(w.scripts[2].stdout.iter().all(|b| *b == b'o'));
    assert!(w.scripts[2].stderr.iter().all(|b| *b == b'e'));
    assert_eq!(w.tasks.len(), 2);
    let first = &w.tasks[0];
    assert!(!first.one_shot);
    assert_eq!(first.request.agent_id, "agent-id");
    assert_eq!(first.request.conversation_id, "conversation-id");
    assert_eq!(first.request.name, "task-0");
    assert_eq!(first.request.schedule, "@every 4s");
    assert_eq!(first.request.sandbox_mode, None);
    assert_eq!(first.request.missed, Some(MissedPolicy::Once));
    assert_eq!(first.request.setup_command, None);
    assert_eq!(first.request.command, vec!["work".to_string()]);
    assert_eq!(first.request.report_prompt, "Report for task-0.");
    assert_eq!(first.request.max_output_bytes, Some(4831));
    let second = &w.tasks[1];
    assert!(second.one_shot);
    assert_eq!(second.request.schedule, "@at 1970-01-01T00:00:14Z");
    assert_eq!(second.request.missed, Some(MissedPolicy::All));
    assert_eq!(second.request.max_output_bytes, Some(1739));
}

#[test]
fn workload_with_setup_commands_and_padding() {
    let (w, state) = workload(2024);
    assert_eq!(state, 0xe753900fb757331f);
    assert_eq!(w.tasks.len(), 3);
    assert_eq!(w.tasks[0].request.schedule, "@every 2s");
    assert_eq!(w.tasks[0].request.setup_command, Some(vec!["setup".to_string()]));
    assert_eq!(w.tasks[0].request.max_output_bytes, Some(6024));
    assert_eq!(w.tasks[1].request.schedule, "@at 1970-01-01T00:00:09Z");
    assert_eq!(w.tasks[2].request.missed, Some(MissedPolicy::Skip));
    assert_eq!(w.tasks[2].request.name, "task-2");
    assert_eq!(script(&w, 2), (2613, 0, 1, 116));
}

#[test]
fn workload_is_a_function_of_the_seed() {
    let (a, sa) = workload(11);
    let (b, sb) = workload(11);
    assert_eq!(sa, 0x491c1656380caf2d);
    assert_eq!(sa, sb);
    for i in 0..64 {
        assert_eq!(script(&a, i), script(&b, i));
    }
    assert_eq!(a.tasks[1].request.schedule, "@every 6s");
    assert_eq!(a.tasks[1].request.schedule, b.tasks[1].request.schedule);
}

#[test]
fn book_of_tasks() {
    let (w, _) = workload(7);
    let mut book = TaskBook::new();
    book.record("id-0".to_string(), &w.tasks[0]);
    book.record("id-1".to_string(), &w.tasks[1]);
    assert_eq!(book.intervals_ms.get("id-0"), Some(&4000));
    assert_eq!(book.intervals_ms.get("id-1"), None);
    assert_eq!(book.one_shots, vec!["id-1".to_string()]);
}

#[test]
fn planned_periods_are_positive() {
    for seed in 0..200 {
        let (w, _) = workload(seed);
        assert!((2..=4).contains(&w.tasks.len()));
        let mut book = TaskBook::new();
        for (i, task) in w.tasks.iter().enumerate() {
            let id = format!("id-{}", i);
            book.record(id.clone(), task);
            match book.intervals_ms.get(&id) {
                Some(ms) => assert!(!task.one_shot && (2000..=10000).contains(ms)),
                None => assert!(task.one_shot),
            }
            assert_eq!(task.request.name, format!("task-{}", i));
        }
    }
}

#[test]
fn passes_of_a_seed() {
    let mut rng = Prng(5);
    let mut scenario = SchedulerScenario::draw(&mut rng);
    assert_eq!(scenario.passes_left, 16);
    let mut passes: Vec<(PassPlan, u64)> = Vec::new();
    while let Some(plan) = scenario.next_pass(&mut rng) {
        let end = if plan.cut_after_ms.is_some() { PassEnd::PowerCut } else { PassEnd::Completed };
        let pause = scenario.pass_ended(&mut rng, end, 600_000);
        passes.push((plan, pause));
    }
    assert_eq!(passes.len(), 16);
    let expect = |redeliver: bool, cut_after_ms: Option<u64>| PassPlan { redeliver, cut_after_ms };
    assert_eq!(passes[0], (expect(false, Some(210)), 2326));
    assert_eq!(passes[1], (expect(true, None), 552));
    assert_eq!(passes[3], (expect(false, Some(827)), 1575));
    assert_eq!(passes[4], (expect(true, None), 1649));
    assert_eq!(passes[11], (expect(false, Some(352)), 602_758));
    assert_eq!(passes[12], (expect(true, None), 1472));
    assert_eq!(passes[15], (expect(true, None), 3587));
    assert_eq!(scenario.next_pass(&mut rng), None);
}

#[test]
fn a_cut_is_followed_by_redelivery() {
    for seed in 0..300 {
        let mut rng = Prng(seed);
        let mut scenario = SchedulerScenario { passes_left: 2, crashed_last_pass: false };
        scenario.next_pass(&mut rng);
        scenario.pass_ended(&mut rng, PassEnd::PowerCut, 0);
        assert!(scenario.next_pass(&mut rng).unwrap().redeliver);
    }
}

#[test]
fn an_errored_pass_is_no_cut() {
    let mut rng = Prng(1);
    let mut scenario = SchedulerScenario { passes_left: 1, crashed_last_pass: true };
    scenario.pass_ended(&mut rng, PassEnd::Errored, 0);
    assert!(!scenario.crashed_last_pass);
}

#[test]
fn quiescence_outlasts_a_lease_first() {
    assert_eq!(quiescence_wait_ms(0, 60_000), 61_000);
    assert_eq!(quiescence_wait_ms(1, 60_000), 2_000);
    assert_eq!(quiescence_wait_ms(2, 60_000), 2_000);
}

#[test]
fn retries_end() {
    let mut retry = Retry::new();
    let mut attempts = 1;
    while retry.again(true) {
        attempts += 1;
    }
    assert_eq!(attempts, 26);
    let mut retry = Retry::new();
    assert!(retry.again(true));
    assert!(!retry.again(false));
    assert_eq!(retry.tries, 1);
}

#[test]
fn outbox_round_of_a_seed() {
    let mut rng = Prng(3);
    assert_eq!(draw_message_count(&mut rng), 6);
    let plan = RoundPlan::draw(&mut rng);
    assert_eq!(plan.cut_after_ms, Some(20));
    assert_eq!(plan.nacks.len(), DECISIONS_PER_ROUND);
    assert_eq!(&plan.nacks[..6], &[false, false, false, true, true, true]);
    assert!(plan.refuses(3));
    assert!(!plan.refuses(32));
    assert!(plan.refuses(35));
    assert_eq!(draw_round_pause_ms(&mut rng), 154);
    let mut rng = Prng(4);
    assert_eq!(draw_message_count(&mut rng), 10);
    assert_eq!(RoundPlan::draw(&mut rng).cut_after_ms, None);
    assert_eq!(draw_round_pause_ms(&mut rng), 42);
}

#[test]
fn scenario_texts() {
    assert_eq!(message_text(3), "message-3");
    assert_eq!(lock_probe_prompt(2), "stale-lock-probe-2");
    assert_eq!(lock_file_name("c1"), "c1.lock");
}

#[test]
fn one_failed_step_spoils_quiescence() {
    let mut quiescence = Quiescence::new();
    quiescence.note(false);
    quiescence.note(false);
    assert!(quiescence.clean);
    quiescence.note(true);
    assert!(!quiescence.clean);
    quiescence.note(false);
    assert!(!quiescence.clean);
}

#[test]
fn draining_ends() {
    assert!(drain_again(0, 3));
    assert!(!drain_again(0, 0));
    assert!(drain_again(6, 1));
    assert!(!drain_again(7, 1));
    assert!(!drain_again(u32::MAX, 1));
}
