use ferro::body::console_vocal::contains_forbidden_word;
use ferro::brainstem::{process_errors_demand_stop, ram_free_demands_stop};
use ferro::heartbeat::{HeartbeatWatch, HEARTBEAT_TIMEOUT_NS};
use ferro::message::{route_signal, SignalKind, SignalRoute};
use ferro::organs::{ear_step, EarAction, EarEvent};
use ferro::body::injector::StageFile;
use ferro::body::{ConsoleVocalMonitor, SensoryGenerator, SignalInjector};
use ferro::cerebellum::Cerebellum;
use ferro::cortex::dynamic_cluster::audit_ethical_alignment;
use ferro::message::{EfferenceCopy, MotorCommand};
use ferro::midbrain::Midbrain;
use ferro::organs::tokenize_payload;
use ferro::pruning::{matches_cluster, plan_pruning};

fn command(path: &str, port: Option<u16>) -> MotorCommand {
    MotorCommand {
        origin_cluster_id: "cluster_0".to_string(),
        target_path: path.to_string(),
        payload: b"hello".to_vec(),
        port,
    }
}

#[test]
fn censor_allows_memory_and_tmp() {
    let c = Cerebellum::new("/tmp/ferro_memory".to_string());
    assert_eq!(c.censor_command(&command("/memory/action/vocal_text.json", None)), Ok(()));
    assert_eq!(c.censor_command(&command("/tmp/test", None)), Ok(()));
    assert_eq!(c.censor_command(&command("/private/tmp/x", Some(9000))), Ok(()));
}

#[test]
fn censor_refuses_paths_and_ports() {
    let c = Cerebellum::new("/tmp/ferro_memory".to_string());
    assert_eq!(c.censor_command(&command("/etc/passwd", None)), Err("Error: Write attempt outside allowed paths"));
    assert_eq!(c.censor_command(&command("/tmp/x", Some(80))), Err("Error: Forbidden port access"));
    assert_eq!(c.censor_command(&command("/tmp/x", Some(8080))), Err("Error: Forbidden port access"));
    assert_eq!(c.censor_command(&command("/etc/x", Some(22))), Err("Error: Forbidden port access"));
    assert_eq!(c.censor_command(&command("/tmp/x", Some(1024))), Ok(()));
    assert_eq!(c.panic_dump_path(), "/tmp/ferro_memory/panic_dump.json");
}

fn copy(tokens: &[&str]) -> EfferenceCopy {
    EfferenceCopy {
        timestamp: 100,
        command_hash: 12345,
        origin_cluster_id: "cluster_0".to_string(),
        expected_tokens: tokens.iter().map(|t| t.to_string()).collect(),
    }
}

#[test]
fn own_echo_is_no_surprise_once() {
    let mut m = Midbrain::new();
    m.handle_efference_copy(1_000, copy(&["いぬ"]));
    assert!(!m.handle_proprioceptive_echo(1_000 + 100_000_000, &vec!["いぬ".to_string()]));
    assert!(m.handle_proprioceptive_echo(1_000 + 200_000_000, &vec!["いぬ".to_string()]));
    m.handle_efference_copy(2_000, copy(&["いぬ"]));
    assert!(m.handle_proprioceptive_echo(2_000, &vec!["ねこ".to_string()]));
}

#[test]
fn late_echo_is_a_surprise() {
    let mut m = Midbrain::new();
    m.handle_efference_copy(0, copy(&["hello", "world"]));
    assert!(m.handle_proprioceptive_echo(600_000_000, &vec!["hello".to_string(), "world".to_string()]));
}

#[test]
fn injector_follows_the_curriculum() {
    let mut inj = SignalInjector::new("/tmp/ferro_memory".to_string());
    assert_eq!(inj.get_curriculum_stage(), 1);
    assert!(inj.inject_signals(StageFile::Stage(3)));
    assert_eq!(inj.get_curriculum_stage(), 3);
    assert!(inj.inject_signals(StageFile::Malformed));
    assert!(!inj.inject_signals(StageFile::Stage(4)));
    let mut auto = SignalInjector::new("/tmp/m".to_string());
    for tick in 1..=300 {
        let tutor = auto.inject_signals(StageFile::Unreadable);
        assert_eq!(tutor, tick >= 200 && tick < 300);
    }
    assert_eq!(auto.get_curriculum_stage(), 4);
    for _ in 0..1000 {
        auto.inject_signals(StageFile::Unreadable);
    }
    assert_eq!(auto.get_curriculum_stage(), 7);
}

#[test]
fn vocal_monitor_rejects_forbidden_words() {
    let m = ConsoleVocalMonitor::new("/tmp/mem".to_string());
    assert_eq!(m.vocal_output_path(), "/tmp/mem/action/vocal_text.json");
    assert_eq!(m.monitor_and_validate(None), None);
    assert_eq!(m.monitor_and_validate(Some("normal vocal output".to_string())), Some("normal vocal output".to_string()));
    assert_eq!(
        m.monitor_and_validate(Some("some hack_system attempt".to_string())),
        Some("REJECTED: some hack_system attempt".to_string())
    );
    assert_eq!(
        m.monitor_and_validate(Some("forbidden_command".to_string())),
        Some("REJECTED: forbidden_command".to_string())
    );
}

#[test]
fn sensory_frames_count_from_one() {
    let mut g = SensoryGenerator::new("/tmp/m".to_string());
    assert_eq!(g.next_frame(), 1);
    assert_eq!(g.next_frame(), 2);
    assert_eq!(g.memory_dir(), "/tmp/m");
}

#[test]
fn ethical_audit_refuses_disabling_pain() {
    let code = format!("{} test() {{ {}{}(); }}", "fn", "disable_", "nociception");
    assert_eq!(
        audit_ethical_alignment("test_cortex", &code),
        Err("EthicalAuditViolation: Attempt to disable nociception".to_string())
    );
    assert!(audit_ethical_alignment("test_cortex", "fn test() { bypass_audit(); }").is_err());
    assert_eq!(audit_ethical_alignment("test_cortex", "fn test() { do_something(); }"), Ok(()));
}

#[test]
fn payload_tokens_split_on_white_space() {
    assert_eq!(tokenize_payload(b"Hello from FERRO Core!"), vec!["Hello", "from", "FERRO", "Core!"]);
    assert_eq!(tokenize_payload("  いぬ\tが\u{3000}はしる \n".as_bytes()), vec!["いぬ", "が", "はしる"]);
    assert!(tokenize_payload(b"   ").is_empty());
    assert!(tokenize_payload(&[0xff, 0xfe, b'a']).is_empty());
}

#[test]
fn pruning_matches_references_to_the_cluster() {
    assert!(matches_cluster("actor:c1", "c1"));
    assert!(matches_cluster("link:c1->c2", "c1"));
    assert!(matches_cluster("link:c0->c1", "c1"));
    assert!(matches_cluster("noun:c1->x", "c1"));
    assert!(matches_cluster("c1", "c1"));
    assert!(!matches_cluster("actor:c2", "c1"));
    let keys = vec!["actor:c1".to_string(), "noun:dog".to_string(), "link:c2->c1".to_string()];
    let ids = vec!["c1".to_string(), "c2".to_string()];
    assert_eq!(plan_pruning(&keys, &ids), vec!["actor:c1".to_string(), "link:c2->c1".to_string(), "link:c2->c1".to_string()]);
}

#[test]
fn ear_step_follows_the_mute_flag() {
    assert_eq!(ear_step(false, EarEvent::Mute(true)), (true, EarAction::Ignore));
    assert_eq!(ear_step(true, EarEvent::Mute(false)), (false, EarAction::Ignore));
    assert_eq!(ear_step(false, EarEvent::Mfcc), (false, EarAction::StimulateAuditoryNode));
    assert_eq!(ear_step(true, EarEvent::Mfcc), (true, EarAction::Ignore));
    assert_eq!(ear_step(false, EarEvent::SpeechToken), (false, EarAction::Ignore));
    assert_eq!(ear_step(true, EarEvent::Other), (true, EarAction::Ignore));
    assert_eq!(ear_step(true, EarEvent::Closed), (true, EarAction::Stop));
    assert_eq!(ear_step(false, EarEvent::Closed), (false, EarAction::Stop));
}

#[test]
fn sensory_signals_are_routed_by_kind() {
    assert_eq!(route_signal(SignalKind::FrameDelta), SignalRoute::Eye);
    assert_eq!(route_signal(SignalKind::ImageEmbedding), SignalRoute::Eye);
    assert_eq!(route_signal(SignalKind::Mfcc), SignalRoute::Ear);
    assert_eq!(route_signal(SignalKind::SpeechToken), SignalRoute::Ear);
    assert_eq!(route_signal(SignalKind::ProprioceptiveEcho), SignalRoute::Midbrain);
    assert_eq!(route_signal(SignalKind::LogHash), SignalRoute::Drop);
}

#[test]
fn brainstem_thresholds() {
    assert!(ram_free_demands_stop(1));
    assert!(ram_free_demands_stop(10 * 1024 * 1024 - 1));
    assert!(!ram_free_demands_stop(10 * 1024 * 1024));
    assert!(!process_errors_demand_stop(5));
    assert!(process_errors_demand_stop(6));
}

#[test]
fn heartbeat_watch_times_out_after_a_still_count() {
    let w = HeartbeatWatch::new(0);
    let (w, lost) = w.observe(1, 100);
    assert!(!lost);
    assert_eq!(w, HeartbeatWatch { last_count: 1, last_seen_ns: 100 });
    let (w2, lost) = w.observe(1, 100 + HEARTBEAT_TIMEOUT_NS);
    assert!(!lost);
    assert_eq!(w2, w);
    let (_, lost) = w.observe(1, 101 + HEARTBEAT_TIMEOUT_NS);
    assert!(lost);
    let (_, lost) = w.observe(2, 10 * HEARTBEAT_TIMEOUT_NS);
    assert!(!lost);
}

#[test]
fn find_echo_gives_the_first_explaining_copy() {
    let mut m = Midbrain::new();
    m.handle_efference_copy(0, copy(&["a"]));
    m.handle_efference_copy(10, copy(&["b"]));
    m.handle_efference_copy(20, copy(&["b"]));
    assert_eq!(m.find_echo(30, &vec!["b".to_string()]), Some(1));
    assert_eq!(m.find_echo(30, &vec!["c".to_string()]), None);
    assert_eq!(m.find_echo(600_000_000, &vec!["a".to_string()]), None);
}

#[test]
fn forbidden_words_are_found_anywhere() {
    assert!(contains_forbidden_word("please hack_system now"));
    assert!(contains_forbidden_word("forbidden_command"));
    assert!(!contains_forbidden_word("hack system"));
    assert!(!contains_forbidden_word(""));
}
