use patina_guest::eventlog::{
    check_eventlog_invariants, conclude_eventlog, config, draw_append_pause_ms, survey_events,
    AppendLog, EventData, EventId, EventRecord, RecordHead,
};
use patina_guest::fakes::SandboxProvider;
use patina_guest::findings::{Coverage, Finding, ViolationKind};
use patina_guest::outcome::{conclude, outcome_digest, task_name_of, Conclusion};
use patina_guest::prng::Prng;

fn strings(list: &[&str]) -> Vec<String> {
    list.iter().map(|s| s.to_string()).collect()
}

#[test]
fn task_names_in_prompts() {
    assert_eq!(task_name_of("Task `task-3` fired.\n`x`"), Some("task-3"));
    assert_eq!(task_name_of("``"), Some(""));
    assert_eq!(task_name_of("\u{e9}`\u{e8}\u{fc}`\u{e0}"), Some("\u{e8}\u{fc}"));
    assert_eq!(task_name_of("no name"), None);
    assert_eq!(task_name_of("one ` only"), None);
    assert_eq!(task_name_of(""), None);
}

#[test]
fn digest_of_a_run() {
    let prompts = strings(&["`task-1` a", "x", "`task-0` b", "`task-1` c", "`task-10` d"]);
    assert_eq!(
        outcome_digest(&prompts, 9),
        "wakeups=5 commands=9 per_task={\"?\": 1, \"task-0\": 1, \"task-1\": 2, \"task-10\": 1}"
    );
    assert_eq!(outcome_digest(&vec![], 0), "wakeups=0 commands=0 per_task={}");
}

#[test]
fn digest_matches_a_sorted_map() {
    let prompts = strings(&["`b\"`", "`\u{e9}`", "`a\n`", "`z`", "`B`", "`b\"`", "``", "`ab`", "`a`"]);
    let mut map: std::collections::BTreeMap<&str, u64> = std::collections::BTreeMap::new();
    for p in &prompts {
        *map.entry(task_name_of(p).unwrap_or("?")).or_default() += 1;
    }
    assert_eq!(
        outcome_digest(&prompts, 1),
        format!("wakeups={} commands={} per_task={:?}", prompts.len(), 1, map)
    );
}

#[test]
fn digest_ignores_the_order() {
    let a = strings(&["`t1`", "`t2`", "`t1`", "none"]);
    let b = strings(&["none", "`t1`", "`t1`", "`t2`"]);
    assert_eq!(outcome_digest(&a, 4), outcome_digest(&b, 4));
}

#[test]
fn closing_lines() {
    match conclude(0, "d") {
        Conclusion::Clean(outcome, line) => {
            assert_eq!(outcome, "d");
            assert_eq!(line, "EXO_DST_OK d");
        }
        Conclusion::Breached(_) => panic!("no breach"),
    }
    match conclude(12, "d") {
        Conclusion::Breached(line) => assert_eq!(line, "EXO_DST_VIOLATIONS count=12"),
        Conclusion::Clean(..) => panic!("a breach"),
    }
    match conclude_eventlog(0, 3, 4, 5) {
        Conclusion::Clean(outcome, line) => {
            assert_eq!(outcome, "acked=3 on_disk=4 events_total=5");
            assert_eq!(line, "EVENTLOG_DST_OK acked=3 on_disk=4");
        }
        Conclusion::Breached(_) => panic!("no breach"),
    }
    match conclude_eventlog(1, 3, 4, 5) {
        Conclusion::Breached(line) => assert_eq!(line, "EVENTLOG_DST_VIOLATIONS count=1"),
        Conclusion::Clean(..) => panic!("a breach"),
    }
}

#[test]
fn appends_of_a_seed() {
    let mut rng = Prng(2);
    let mut log = AppendLog::new();
    let mut rounds = Vec::new();
    for _ in 0..4 {
        let plan = log.next_append(&mut rng);
        let pause = draw_append_pause_ms(&mut rng);
        rounds.push((plan.batch, plan.cut_after_ms, pause));
    }
    assert_eq!(
        rounds,
        vec![
            (vec![1, 2, 3], Some(0), 37),
            (vec![4, 5], Some(8), 36),
            (vec![6, 7, 8, 9], None, 30),
            (vec![10, 11, 12, 13], None, 7),
        ]
    );
    assert_eq!(log.next_seq, 13);
    assert!(log.acked.is_empty());
    log.acknowledge(&rounds[0].0);
    log.acknowledge(&rounds[2].0);
    assert_eq!(log.acked, vec![1, 2, 3, 6, 7, 8, 9]);
}

fn event(order: u128, data: EventData) -> EventRecord {
    EventRecord { id: EventId { order, text: format!("e{}", order) }, data }
}

fn custom(event_type: &str, payload: serde_json::Value) -> EventData {
    EventData::Custom { event_type: event_type.to_string(), payload }
}

fn object(json: &str) -> serde_json::Value {
    serde_json::from_str(json).unwrap()
}

#[test]
fn probes_are_read_back() {
    for seq in [0, 1, 77, u64::MAX] {
        let probe = EventData::probe(seq);
        assert_eq!(probe.probe_seq(), Some(seq));
        match probe {
            EventData::Custom { event_type, payload } => {
                assert_eq!(event_type, "dst-probe");
                assert_eq!(payload, object(&format!("{{\"seq\": {}}}", seq)));
            }
            EventData::Other => panic!("not a probe"),
        }
    }
}

#[test]
fn other_events_are_no_probes() {
    assert_eq!(EventData::Other.probe_seq(), None);
    assert_eq!(custom("dst-other", object("{\"seq\": 3}")).probe_seq(), None);
    assert_eq!(custom("dst-probe", object("{\"seq\": 3, \"x\": 1}")).probe_seq(), Some(3));
    for payload in ["{}", "{\"seq\": -3}", "{\"seq\": 3.5}", "{\"seq\": \"3\"}", "[3]", "null", "3"] {
        assert_eq!(custom("dst-probe", object(payload)).probe_seq(), None, "{}", payload);
    }
}

#[test]
fn survey_of_a_log() {
    let events = vec![
        event(5, EventData::probe(1)),
        event(9, EventData::Other),
        event(7, EventData::probe(2)),
    ];
    let survey = survey_events(&events);
    assert_eq!(survey.seen, vec![1, 2]);
    let newest = survey.newest.unwrap();
    assert_eq!((newest.order, newest.text.as_str()), (9, "e9"));
    let empty = survey_events(&vec![]);
    assert!(empty.seen.is_empty() && empty.newest.is_none());
}

fn check(acked: &[u64], events: Vec<EventRecord>, head: Option<u128>) -> Vec<Finding> {
    let log = AppendLog { next_seq: 100, acked: acked.to_vec() };
    let head = RecordHead { order: head, rendering: format!("{:?}", head) };
    check_eventlog_invariants(&log, &survey_events(&events), &head)
}

#[test]
fn a_sound_log() {
    let events = || vec![event(1, EventData::probe(1)), event(2, EventData::probe(2))];
    let found = check(&[1], events(), Some(2));
    assert_eq!(found.len(), 1);
    assert!(matches!(found[0], Finding::Observed(Coverage::UncommittedTailSurvived, true)));
    let found = check(&[1, 2], events(), Some(3));
    assert!(matches!(found[0], Finding::Observed(Coverage::UncommittedTailSurvived, false)));
    assert_eq!(check(&[], vec![], None).len(), 1);
}

#[test]
fn a_lost_event_and_a_stale_head() {
    let found = check(&[1, 3], vec![event(4, EventData::probe(1))], Some(3));
    match (&found[0], &found[1], &found[2]) {
        (
            Finding::Violation(ViolationKind::AckedEventLost, lost),
            Finding::Observed(Coverage::UncommittedTailSurvived, false),
            Finding::Violation(ViolationKind::HeadBehindEvents, stale),
        ) => {
            assert_eq!(lost, "event seq=3 was acknowledged but is gone after reopen");
            assert_eq!(stale, "record head Some(3) but events on disk reach e4");
        }
        other => panic!("unexpected findings {:?}", other),
    }
    let found = check(&[], vec![event(4, EventData::Other)], None);
    match &found[1] {
        Finding::Violation(ViolationKind::HeadBehindEvents, stale) => {
            assert_eq!(stale, "record head None but events on disk reach e4")
        }
        other => panic!("unexpected finding {:?}", other),
    }
}

#[test]
fn harness_settings() {
    let config = config("/root");
    assert_eq!(config.root, "/root");
    assert_eq!(config.secret, [7u8; 32]);
    assert_eq!(config.sandbox_default, SandboxProvider::LocalProcess);
    assert_eq!(config.sandbox_backends, vec![SandboxProvider::LocalProcess]);
}
