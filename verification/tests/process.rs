use herdr_services::probe::{family, host, Family};
use herdr_services::process::{checked, describe, ended, Fault, Outcome, Output};

fn output(success: bool, stdout: &[u8], stderr: &[u8]) -> Output {
    Output {
        success,
        status: "exit status: 3".into(),
        stdout: stdout.to_vec(),
        stderr: stderr.to_vec(),
    }
}

#[test]
fn commands_are_described_by_their_words() {
    assert_eq!(describe("ps", &vec!["-a".to_string(), "x".to_string()]), "ps -a x");
    assert_eq!(describe("ps", &vec![]), "ps");
}

#[test]
fn a_command_that_failed_to_end_has_no_output() {
    assert_eq!(
        ended("ps", 100, Outcome::NotStarted("not found".into())),
        Err(Fault {
            text: "spawn ps".into(),
            cause: Some("not found".into())
        })
    );
    assert_eq!(
        ended("ps", 100, Outcome::TimedOut).unwrap_err().message(),
        "ps timed out after 100 ms"
    );
    let o = ended("ps", 100, Outcome::Ended(output(false, b"out", b""))).unwrap();
    assert_eq!(o.stdout, b"out");
}

#[test]
fn only_text_of_a_command_that_succeeded_is_used() {
    assert_eq!(
        checked("ps", 1, Outcome::Ended(output(true, "é".as_bytes(), b"warn"))),
        Ok("é".to_string())
    );
    assert_eq!(
        checked("ps", 1, Outcome::Ended(output(false, b"out", b" bad\n")))
            .unwrap_err()
            .message(),
        "ps exited with exit status: 3: bad"
    );
    let fault = checked("ps", 1, Outcome::Ended(output(true, &[0xc3], b""))).unwrap_err();
    assert_eq!(fault.text, "ps: stdout is not UTF-8");
    assert!(!fault.cause.unwrap().is_empty());
    assert_eq!(
        checked("ps", 1, Outcome::NotStarted("x".into())).unwrap_err().message(),
        "spawn ps: x"
    );
    assert_eq!(
        checked("ps", 7, Outcome::TimedOut).unwrap_err().message(),
        "ps timed out after 7 ms"
    );
}

#[test]
fn probes_stay_on_this_machine() {
    assert_eq!(family("[::1]"), Family::V6);
    assert_eq!(family("10.0.0.2"), Family::V4);
    assert_eq!(host("*"), "127.0.0.1");
    assert_eq!(host(""), "127.0.0.1");
    assert_eq!(host("127.0.0.1"), "127.0.0.1");
    assert_eq!(host("192.168.1.5"), "127.0.0.1");
    assert_eq!(host("[::]"), "::1");
    assert_eq!(host("[fe80::1]"), "::1");
}
