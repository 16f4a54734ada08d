use proddle::results::{
    command_line, decimal, result_record, script_path, Execution, Outcome, ResultBuffer, RETRY_COOLDOWN,
};

fn output(text: &str) -> Outcome {
    Outcome::Output(text.to_string())
}

#[test]
fn decimal_writes_numbers_as_they_are_read() {
    assert_eq!(decimal(0), "0");
    assert_eq!(decimal(7), "7");
    assert_eq!(decimal(10), "10");
    assert_eq!(decimal(1234567890), "1234567890");
    assert_eq!(decimal(1_500_000_305), "1500000305");
    assert_eq!(decimal(u64::MAX), "18446744073709551615");
    for number in [9u64, 99, 100, 101, 65535, 4294967296] {
        assert_eq!(decimal(number), number.to_string());
    }
}

#[test]
fn script_path_joins_directory_and_name() {
    assert_eq!(script_path("/var/scripts", "probe"), "/var/scripts/probe");
    assert_eq!(script_path("scripts", "dns/lookup.py"), "scripts/dns/lookup.py");
    assert_eq!(script_path("", ""), "/");
}

#[test]
fn command_line_names_interpreter_script_and_domain() {
    assert_eq!(
        command_line("python", "/var/scripts", "probe", "example.org"),
        vec!["python".to_string(), "/var/scripts/probe".to_string(), "example.org".to_string()]
    );
}

#[test]
fn record_of_a_run_with_output() {
    let record = result_record(1500000000, "vantage-1", "10.0.0.7", "probe", "x", &output("{\"ok\":1}"));
    assert_eq!(
        record,
        "{\"Timestamp\":1500000000,\"Hostname\":\"vantage-1\",\"IpAddress\":\"10.0.0.7\",\"Script\":\"probe\",\"Domain\":\"x\",\"Error\":false,\"Result\":{\"ok\":1}}"
    );
}

#[test]
fn record_of_a_failed_run() {
    let record = result_record(
        42,
        "h",
        "::1",
        "dns/lookup",
        "example.org",
        &Outcome::Failure("No such file or directory (os error 2)".to_string()),
    );
    assert_eq!(
        record,
        "{\"Timestamp\":42,\"Hostname\":\"h\",\"IpAddress\":\"::1\",\"Script\":\"dns/lookup\",\"Domain\":\"example.org\",\"Error\":true,\"ErrorMessage\":\"No such file or directory (os error 2)\"}"
    );
}

#[test]
fn record_keeps_texts_as_they_are() {
    let record = result_record(0, "", "", "", "", &output(""));
    assert_eq!(
        record,
        "{\"Timestamp\":0,\"Hostname\":\"\",\"IpAddress\":\"\",\"Script\":\"\",\"Domain\":\"\",\"Error\":false,\"Result\":}"
    );
    let odd = result_record(1, "a\"b", "c", "d", "\u{e9}", &output("[1,\n2]"));
    assert!(odd.contains("\"Hostname\":\"a\"b\""));
    assert!(odd.contains("\"Domain\":\"\u{e9}\""));
    assert!(odd.ends_with("\"Result\":[1,\n2]}"));
}

#[test]
fn outcome_of_a_run_that_could_not_start_is_its_reason() {
    let outcome = Outcome::of(Execution::Failed { reason: "permission denied".to_string() });
    assert!(matches!(outcome, Outcome::Failure(reason) if reason == "permission denied"));
}

#[test]
fn outcome_of_a_run_with_output_is_the_output_whatever_the_status() {
    let good = Outcome::of(Execution::Exited { success: true, stdout: "{\"ok\":1}".to_string() });
    assert!(matches!(good, Outcome::Output(text) if text == "{\"ok\":1}"));
    let bad_status = Outcome::of(Execution::Exited { success: false, stdout: "{\"ok\":0}".to_string() });
    assert!(matches!(bad_status, Outcome::Output(text) if text == "{\"ok\":0}"));
    let silent = Outcome::of(Execution::Exited { success: true, stdout: String::new() });
    assert!(matches!(silent, Outcome::Output(text) if text.is_empty()));
}

#[test]
fn outcome_of_a_failed_run_without_output_is_a_failure() {
    let outcome = Outcome::of(Execution::Exited { success: false, stdout: String::new() });
    assert!(matches!(outcome, Outcome::Failure(reason) if reason == "script failed without output"));
}

#[test]
fn buffer_sends_when_the_batch_is_full() {
    let mut buffer = ResultBuffer::new(3);
    assert!(!buffer.receive("one".to_string(), 10));
    assert!(!buffer.receive("two".to_string(), 11));
    assert!(buffer.receive("three".to_string(), 12));
    assert_eq!(buffer.records(), &vec!["one".to_string(), "two".to_string(), "three".to_string()]);
    buffer.sent();
    assert_eq!(buffer.len(), 0);
    assert_eq!(buffer.retry_allowed_after(), 0);
    assert!(!buffer.ready(13));
}

#[test]
fn buffer_keeps_the_order_of_arrival() {
    let mut buffer = ResultBuffer::new(100);
    for i in 0..20u64 {
        buffer.push(i.to_string());
    }
    let expected: Vec<String> = (0..20u64).map(|i| i.to_string()).collect();
    assert_eq!(buffer.records(), &expected);
    assert_eq!(buffer.len(), 20);
}

#[test]
fn buffer_waits_for_the_cooldown_after_a_failure() {
    let mut buffer = ResultBuffer::new(2);
    buffer.push("a".to_string());
    assert!(buffer.receive("b".to_string(), 0));
    buffer.failed(0);
    assert_eq!(buffer.retry_allowed_after(), 600);
    assert_eq!(buffer.len(), 2);
    assert!(!buffer.receive("c".to_string(), 60));
    assert!(!buffer.ready(599));
    assert!(buffer.ready(600));
    assert!(buffer.receive("d".to_string(), 600));
    assert_eq!(
        buffer.records(),
        &vec!["a".to_string(), "b".to_string(), "c".to_string(), "d".to_string()]
    );
    buffer.sent();
    assert!(!buffer.ready(601));
    assert!(!buffer.receive("e".to_string(), 601));
    assert!(buffer.receive("f".to_string(), 601));
}

#[test]
fn cooldown_is_ten_minutes() {
    assert_eq!(RETRY_COOLDOWN, 600);
    let mut buffer = ResultBuffer::new(0);
    buffer.failed(1_500_000_000);
    assert_eq!(buffer.retry_allowed_after(), 1_500_000_600);
    assert!(!buffer.ready(1_500_000_599));
    assert!(buffer.ready(1_500_000_600));
}

#[test]
fn batch_size_zero_sends_at_once() {
    let buffer = ResultBuffer::new(0);
    assert!(buffer.ready(0));
}
