use dpdk_utest::log_target;
use dpdk_utest::session::{
    completion_step, continue_after_error, disconnect_status, filter_output, read_error_status,
    rsh_exec, ssh2_nb, ssh_error_kind, IoErrorKind, NbStep, ReadEvent, SshErrorCode, WaitAction,
};

#[test]
fn filter_output_drops_prompt_marker_and_empty_lines() {
    let out = "a\r\n\r\ntestpmd> \r\nb###\r\ntestpmd> ###\r\nc";
    assert_eq!(filter_output(out, "testpmd> "), "a\nc\n");
}

#[test]
fn filter_output_keeps_other_lines() {
    assert_eq!(filter_output("one\r\ntwo\r\n", ">>> "), "one\ntwo\n");
    assert_eq!(filter_output("", ">>> "), "");
    assert_eq!(filter_output(">>> ", ">>> "), "");
    assert_eq!(filter_output("x\ny", ">>> "), "x\ny\n");
}

#[test]
fn filter_output_never_shows_marker() {
    for out in ["#\r\n##", "a##\r\n#b", "###", "x\r\n###y\r\n"] {
        assert!(!filter_output(out, ">>>").contains("###"));
    }
}

#[test]
fn completion_on_prompt_at_line_end() {
    assert_eq!(
        completion_step(0, "done\ntestpmd> ", "start\ndone\ntestpmd> ", "testpmd> "),
        Some((WaitAction::Complete, 0))
    );
}

#[test]
fn completion_waits_on_empty_chunk() {
    assert_eq!(completion_step(3, "", "anything", "testpmd> "), Some((WaitAction::Wait, 3)));
}

#[test]
fn completion_resends_on_every_other_miss() {
    assert_eq!(completion_step(0, "busy", "busy", ">>>"), Some((WaitAction::Resend, 1)));
    assert_eq!(completion_step(1, "busy", "busy busy", ">>>"), Some((WaitAction::Wait, 2)));
    assert_eq!(completion_step(2, "busy", "busy busy busy", ">>>"), Some((WaitAction::Resend, 3)));
}

#[test]
fn completion_prompt_inside_chunk_is_no_miss() {
    // the prompt is in the chunk but not at the end of a line
    assert_eq!(completion_step(4, ">>>$x", ">>>$x", ">>>"), Some((WaitAction::Wait, 4)));
}

#[test]
fn completion_bad_prompt_pattern() {
    assert_eq!(completion_step(0, "x", "x", "("), None);
}

#[test]
fn would_block_continues() {
    assert!(continue_after_error(IoErrorKind::WouldBlock));
    assert!(!continue_after_error(IoErrorKind::TimedOut));
    assert!(!continue_after_error(IoErrorKind::Other));
}

#[test]
fn ssh_error_kinds() {
    assert_eq!(ssh_error_kind(SshErrorCode::Session(-37)), IoErrorKind::WouldBlock);
    assert_eq!(ssh_error_kind(SshErrorCode::Session(-9)), IoErrorKind::TimedOut);
    assert_eq!(ssh_error_kind(SshErrorCode::Session(-1)), IoErrorKind::Other);
    assert_eq!(ssh_error_kind(SshErrorCode::Sftp(2)), IoErrorKind::NotFound);
    assert_eq!(ssh_error_kind(SshErrorCode::Sftp(10)), IoErrorKind::NotFound);
    assert_eq!(ssh_error_kind(SshErrorCode::Sftp(11)), IoErrorKind::AlreadyExists);
    assert_eq!(ssh_error_kind(SshErrorCode::Sftp(-37)), IoErrorKind::Other);
}

#[test]
fn ssh2_nb_steps() {
    assert!(matches!(ssh2_nb::<u32>(Ok(5)), NbStep::Done(5)));
    assert!(matches!(ssh2_nb::<u32>(Err(SshErrorCode::Session(-37))), NbStep::Retry));
    assert!(matches!(ssh2_nb::<u32>(Err(SshErrorCode::Session(-9))), NbStep::GiveUp));
    assert!(matches!(ssh2_nb::<u32>(Err(SshErrorCode::Sftp(2))), NbStep::GiveUp));
}

#[test]
fn rsh_exec_collects_until_end() {
    let mut out = String::new();
    assert!(rsh_exec(&mut out, ReadEvent::Data("abc".to_string())));
    assert!(rsh_exec(&mut out, ReadEvent::Failed(IoErrorKind::WouldBlock)));
    assert!(rsh_exec(&mut out, ReadEvent::Data("def".to_string())));
    assert!(!rsh_exec(&mut out, ReadEvent::End));
    assert_eq!(out, "abcdef");
    assert!(!rsh_exec(&mut out, ReadEvent::Failed(IoErrorKind::Other)));
    assert_eq!(out, "abcdef");
}

#[test]
fn statuses() {
    assert_eq!(read_error_status(Some(104)), 104);
    assert_eq!(read_error_status(None), 255);
    assert_eq!(disconnect_status(3, &None), 3);
    assert_eq!(disconnect_status(0, &Some("KILL".to_string())), 255);
    assert_eq!(disconnect_status(0, &None), 0);
}

#[test]
fn log_target_is_the_tag() {
    assert_eq!(log_target("dut"), "dut");
    assert_eq!(log_target(""), "");
}
