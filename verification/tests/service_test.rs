use patina_guest::clock::Timestamp;
use patina_guest::fakes::{
    fake_agent_config, AgentHarnessKind, FakeHarness, SandboxProvider, SandboxScope,
};
use patina_guest::findings::{Coverage, Finding, ViolationKind};
use patina_guest::message::{render_message_text, Message, UserContent};
use patina_guest::script::{next_script_fn, CommandScript, FakeSandboxProcess};
use patina_guest::service::{check_wakeup_lock, ServiceError, ServiceState};

fn stamp(secs: i64) -> Timestamp {
    Timestamp { secs, nanos: 5 }
}

fn script(exit_code: i32) -> CommandScript {
    CommandScript { stdout: vec![1, 2], stderr: vec![3], exit_code, run_millis: 9 }
}

fn text(s: &str) -> Message {
    Message::User(UserContent::Text(s.to_string()))
}

#[test]
fn what_was_written_is_read_back() {
    let mut state = ServiceState::default();
    let first = state.store_artifact("p".into(), vec![1], "id-p".into(), stamp(1));
    assert_eq!((first.version, first.size_bytes), (1, 1));
    assert_eq!(first.created_at, stamp(1));
    let second = state.store_artifact("p".into(), vec![2, 2], "unused".into(), stamp(2));
    assert_eq!(second.artifact_id, "id-p");
    assert_eq!((second.version, second.size_bytes), (2, 2));
    state.store_artifact("q".into(), vec![], "id-q".into(), stamp(3));

    let latest = state.fetch_artifact("id-p", None, stamp(4)).unwrap();
    assert_eq!(latest.contents, vec![2, 2]);
    assert_eq!(latest.version.version, 2);
    assert_eq!(latest.version.path, "p");
    assert_eq!(latest.version.artifact_id, "id-p");
    assert_eq!(latest.version.size_bytes, 2);
    assert_eq!(latest.version.created_at, stamp(4));
    assert_eq!(state.fetch_artifact("id-p", Some(1), stamp(4)).unwrap().contents, vec![1]);
    let named = state.read_artifact("id-p", Some(2)).unwrap();
    assert_eq!(named.contents, vec![2, 2]);
    assert_eq!((named.version.version, named.version.size_bytes), (2, 2));
    assert!(state.knows_path("p") && state.knows_path("q") && !state.knows_path("id-p"));
    assert_eq!(state.fetch_artifact("id-q", None, stamp(4)).unwrap().contents, Vec::<u8>::new());
}

#[test]
fn reads_that_miss() {
    let mut state = ServiceState::default();
    state.store_artifact("p".into(), vec![1], "id-p".into(), stamp(1));
    assert!(state.read_artifact("id-x", None).is_none());
    assert!(state.read_artifact("id-p", Some(2)).is_none());
    assert!(state.read_artifact("id-p", Some(u64::MAX)).is_none());
    let zero = state.read_artifact("id-p", Some(0)).unwrap();
    assert_eq!(zero.contents, vec![1]);
    assert_eq!(zero.version.version, 0);
}

#[test]
fn written_artifacts_carry_the_time() {
    let mut state = ServiceState::default();
    let v = state.write_artifact(false, "p".into(), vec![7], "id".into()).unwrap();
    assert!(v.created_at.secs > 1_600_000_000);
    assert!(v.created_at.nanos < 1_000_000_000);
    assert!(state.read_artifact("id", None).unwrap().version.created_at.secs > 1_600_000_000);
}

#[test]
fn a_faulted_write_changes_nothing() {
    let mut state = ServiceState::default();
    match state.write_artifact(true, "p".into(), vec![7], "id".into()) {
        Err(e) => {
            assert_eq!(e, ServiceError::ArtifactWriteFailed);
            assert_eq!(e.message(), "transient: artifact write failed");
        }
        Ok(_) => panic!("the fault did not strike"),
    }
    assert!(state.artifacts.is_empty());
}

#[test]
fn listed_artifacts() {
    let mut state = ServiceState::default();
    state.store_artifact("p".into(), vec![1], "id-p".into(), stamp(1));
    state.store_artifact("q".into(), vec![1, 2, 3], "id-q".into(), stamp(1));
    state.store_artifact("p".into(), vec![1, 2], "x".into(), stamp(1));
    let mut listed: Vec<(String, String, u64, u64)> = state
        .list_artifacts()
        .into_iter()
        .map(|v| (v.path, v.artifact_id, v.version, v.size_bytes))
        .collect();
    listed.sort();
    assert_eq!(
        listed,
        vec![
            ("p".to_string(), "id-p".to_string(), 2, 2),
            ("q".to_string(), "id-q".to_string(), 1, 3),
        ]
    );
    assert!(ServiceState::default().list_artifacts().is_empty());
}

#[test]
fn sandboxes_are_named() {
    let mut state = ServiceState::default();
    assert_eq!(state.create_sandbox(false, Some("box".into()), "u"), Ok("box".to_string()));
    assert_eq!(state.create_sandbox(false, None, "u"), Ok("sandbox-u".to_string()));
    let failed = state.create_sandbox(true, None, "v");
    assert_eq!(failed, Err(ServiceError::SandboxCreateFailed));
    assert_eq!(state.sandboxes, vec!["box".to_string(), "sandbox-u".to_string()]);
    assert_eq!(ServiceError::SandboxCreateFailed.message(), "transient: sandbox create failed");
}

#[test]
fn sends_join_their_messages() {
    let mut state = ServiceState::default();
    let input = vec![text("a"), Message::Other("Other(b)".into()), Message::User(UserContent::Other("[c]".into()))];
    assert_eq!(state.finish_send(false, &input), Ok(()));
    assert_eq!(state.finish_send(false, &vec![]), Ok(()));
    assert_eq!(state.prompts(), vec!["a\nOther(b)\n[c]".to_string(), "".to_string()]);
    assert_eq!(render_message_text(&input[0]), "a");
}

#[test]
fn scripted_failures_run_out() {
    let mut state = ServiceState::default();
    state.send_failures_remaining = 2;
    assert!(state.send_scripted_to_fail());
    assert_eq!(state.finish_send(false, &vec![text("a")]), Err(ServiceError::SendFailed));
    assert_eq!(state.finish_send(true, &vec![text("a")]), Err(ServiceError::SendFailed));
    assert!(!state.send_scripted_to_fail());
    assert_eq!(state.finish_send(true, &vec![text("a")]), Err(ServiceError::SendFailed));
    assert_eq!(state.send_failures_remaining, 0);
    assert!(state.wakeups.is_empty());
    assert_eq!(state.finish_send(false, &vec![text("a")]), Ok(()));
    assert_eq!(state.wakeups[0].prompt, "a");
    state.send_failures_remaining = 9;
    state.clear_send_failures();
    assert!(!state.send_scripted_to_fail());
    assert_eq!(ServiceError::SendFailed.message(), "transient: conversation send failed");
}

#[test]
fn the_high_water_mark_sees_a_double_hold() {
    let mut state = ServiceState::default();
    state.enter_send();
    state.leave_send();
    state.enter_send();
    state.leave_send();
    assert_eq!((state.sends_inside, state.max_sends_inside), (0, 1));
    let found = check_wakeup_lock(&state);
    assert_eq!(found.len(), 1);
    assert!(matches!(found[0], Finding::Observed(Coverage::WakeupLockSerialized, true)));

    state.enter_send();
    state.enter_send();
    state.leave_send();
    assert_eq!((state.sends_inside, state.max_sends_inside), (1, 2));
    let found = check_wakeup_lock(&state);
    assert_eq!(found.len(), 2);
    assert!(matches!(found[0], Finding::Observed(Coverage::WakeupLockSerialized, false)));
    match &found[1] {
        Finding::Violation(kind, detail) => {
            assert_eq!(*kind, ViolationKind::WakeupLockDoubleHold);
            assert_eq!(detail, "2 wakeup sends ran concurrently on one conversation");
        }
        Finding::Observed(..) => panic!("not a violation"),
    }
    state.reset_send_high_water();
    assert_eq!((state.sends_inside, state.max_sends_inside), (1, 0));
}

#[test]
fn scripts_come_in_order_and_then_the_default() {
    let mut state = ServiceState::default();
    let mut source = next_script_fn(&vec![script(4), script(5)]);
    assert_eq!(source.take(&mut state).exit_code, 4);
    assert_eq!(source.take(&mut state).exit_code, 5);
    let default = source.take(&mut state);
    assert_eq!(default.stdout, b"ok".to_vec());
    assert!(default.stderr.is_empty());
    assert_eq!((default.exit_code, default.run_millis), (0, 50));
    assert_eq!(state.commands_run, 3);
}

#[test]
fn a_faulted_run_takes_no_script() {
    let mut state = ServiceState::default();
    let mut source = next_script_fn(&vec![script(4)]);
    match source.run_in_sandbox(&mut state, true) {
        Err(e) => {
            assert_eq!(e, ServiceError::SandboxRunFailed);
            assert_eq!(e.message(), "transient: run_in_sandbox failed");
        }
        Ok(_) => panic!("the fault did not strike"),
    }
    assert_eq!(state.commands_run, 0);
    state.commands_run = u64::MAX;
    assert!(source.run_in_sandbox(&mut state, true).is_err());
    state.commands_run = 0;
    match source.run_in_sandbox(&mut state, false) {
        Ok(process) => assert_eq!(process.script.exit_code, 4),
        Err(_) => panic!("the fault struck"),
    }
}

#[test]
fn a_process_comes_apart() {
    let parts = FakeSandboxProcess { script: script(3) }.into_parts();
    assert_eq!(parts.stdout, vec![1, 2]);
    assert_eq!(parts.stderr, vec![3]);
    assert!(parts.stdin.is_empty());
    assert_eq!((parts.run_millis, parts.exit_code), (9, 3));
}

#[test]
fn the_agent_and_the_conversation_are_found() {
    let harness = FakeHarness::new(vec![script(1)]);
    assert_eq!(harness.agent_id(), "00000000-0000-7000-8000-0000000000aa");
    assert_eq!(harness.conversation_id(), "00000000-0000-7000-8000-0000000000cc");
    assert_eq!(harness.list_agents()[0].name, "Agent");
    for reference in ["agent", "00000000-0000-7000-8000-0000000000aa"] {
        assert!(matches!(harness.get_agent(false, reference), Ok(Some(_))));
    }
    for reference in ["Agent", "", "00000000-0000-7000-8000-0000000000cc", "conversation"] {
        assert!(matches!(harness.get_agent(false, reference), Ok(None)));
    }
    assert!(matches!(harness.get_agent(true, "agent"), Err(ServiceError::AgentLookupFailed)));
    assert_eq!(ServiceError::AgentLookupFailed.message(), "transient: agent lookup failed");
    let agent = &harness.agent;
    assert_eq!(agent.list_conversations()[0].slug, "conversation");
    assert!(agent.get_conversation("conversation").is_some());
    assert!(agent.get_conversation(&harness.conversation_id()).is_some());
    assert!(agent.get_conversation("agent").is_none());
}

#[test]
fn every_handle_starts_with_the_first_script() {
    let harness = FakeHarness::new(vec![script(1), script(2)]);
    let mut state = ServiceState::default();
    let mut first = harness.agent.exoharness_handle();
    assert_eq!(first.record.slug, "agent");
    assert_eq!(first.scripts_source.take(&mut state).exit_code, 1);
    let mut second = harness.agent.exoharness_handle();
    assert_eq!(second.scripts_source.take(&mut state).exit_code, 1);
    assert_eq!(first.scripts_source.take(&mut state).exit_code, 2);
    let mut thread = harness.agent.conversation.exoharness_handle();
    assert_eq!(thread.record.name, "Conversation");
    assert_eq!(thread.record.latest_event_id, None);
    assert_eq!(thread.scripts_source.take(&mut state).exit_code, 1);
    assert_eq!(state.commands_run, 4);
}

#[test]
fn settings() {
    let config = fake_agent_config();
    assert!(config.instructions.is_empty());
    assert_eq!(config.harness, AgentHarnessKind::Basic);
    assert!(!config.typescript && !config.braintrust && !config.enable_agent_tool_creation);
    assert_eq!(config.sandbox.scope, SandboxScope::Agent);
    assert_eq!(config.sandbox.image, Some("fake-image".to_string()));
    assert_eq!(config.sandbox.provider, SandboxProvider::LocalProcess);
    assert!(config.sandbox.mounts.is_empty() && !config.sandbox.enable_networking);
    assert_eq!(config.model, "fake-model");
    assert_eq!(config.max_output_tokens, None);
    assert_eq!(config.max_tool_round_trips, Some(4));
    let conversation = FakeHarness::new(vec![]).agent.conversation.config();
    assert_eq!(conversation.sandbox_image, None);
    assert_eq!(conversation.sandbox_provider, None);
    assert_eq!(conversation.shell_program, None);
    assert!(conversation.mounts.is_empty() && conversation.durable_file_systems.is_empty());
    assert_eq!(conversation.sandbox_scope, None);
}
