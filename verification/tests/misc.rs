use r_vlr_util::ffi::{
    abi_version, copy_status, utf8_texts_equal, VruGuid, STATUS_INSUFFICIENT_BUFFER, STATUS_INVALID_ARGUMENT,
    STATUS_OK,
};
use r_vlr_util::filesystem::DeleteOptions;
use r_vlr_util::network::NetworkTarget;
use r_vlr_util::retry::{next_retry_step, RetryDisposition, RetrySettings, RetryStep};
use r_vlr_util::threading::ContextStack;
use std::time::Duration;

#[test]
fn selects_appropriate_machine_name() {
    assert_eq!(NetworkTarget::local_system().machine_name(), None);
    let target = NetworkTarget {
        logical_name: "logical".into(),
        dns_name: Some("host.example".into()),
        ..NetworkTarget::default()
    };
    assert_eq!(target.machine_name(), Some("host.example"));
}

#[test]
fn machine_name_prefers_netbios_then_logical() {
    let target = NetworkTarget {
        logical_name: "logical".into(),
        netbios_name: Some("NETBIOS".into()),
        dns_name: Some("host.example".into()),
        ..NetworkTarget::default()
    };
    assert_eq!(target.machine_name(), Some("NETBIOS"));
    let logical = NetworkTarget { logical_name: "logical".into(), ..NetworkTarget::default() };
    assert_eq!(logical.machine_name(), Some("logical"));
    assert_eq!(NetworkTarget::default().machine_name(), None);
}

#[test]
fn retry_steps_follow_the_settings() {
    let settings = RetrySettings { max_retries: 2, ..RetrySettings::default() };
    assert_eq!(next_retry_step(settings, 0, true), RetryStep::Retry);
    assert_eq!(next_retry_step(settings, 1, true), RetryStep::Retry);
    assert_eq!(next_retry_step(settings, 2, true), RetryStep::Finish);
    assert_eq!(next_retry_step(settings, 0, false), RetryStep::Finish);
    let delayed = RetrySettings {
        max_retries: 1,
        disposition: RetryDisposition::LinearDelay(Duration::from_millis(5)),
    };
    assert_eq!(next_retry_step(delayed, 0, true), RetryStep::SleepThenRetry(Duration::from_millis(5)));
    assert_eq!(RetrySettings::default().max_retries, 0);
}

#[test]
fn operation_contexts_stack_and_unwind_by_guard() {
    let mut stack = ContextStack::new();
    stack.push(1, "request", "42");
    stack.push(2, "operation", "read");
    assert_eq!(stack.contexts().len(), 2);
    stack.remove(2);
    let remaining = stack.contexts();
    assert_eq!(remaining.len(), 1);
    assert_eq!(remaining[0].name, "request");
    assert_eq!(remaining[0].value, "42");
    stack.remove(1);
    assert!(stack.contexts().is_empty());
}

#[test]
fn buffer_protocol_statuses() {
    assert_eq!(abi_version(), 1);
    assert_eq!(copy_status(false, 10, 5, true), STATUS_INVALID_ARGUMENT);
    assert_eq!(copy_status(true, 0, 5, false), STATUS_INSUFFICIENT_BUFFER);
    assert_eq!(copy_status(true, 4, 5, true), STATUS_INSUFFICIENT_BUFFER);
    assert_eq!(copy_status(true, 5, 5, true), STATUS_OK);
    assert_eq!(VruGuid::default(), VruGuid { data1: 0, data2: 0, data3: 0, data4: [0; 8] });
}

#[test]
fn utf8_text_equality_checks_encoding_and_case() {
    assert!(utf8_texts_equal(b"Value", b"value", true));
    assert!(!utf8_texts_equal(b"Value", b"value", false));
    assert!(utf8_texts_equal(b"value", b"value", false));
    assert!(!utf8_texts_equal(b"\xff", b"\xff", false));
    assert!(!utf8_texts_equal(b"ab", b"abc", true));
}

#[test]
fn relative_paths_need_permission_to_delete() {
    assert!(!DeleteOptions::default().permits(true));
    assert!(DeleteOptions::default().permits(false));
    assert!(DeleteOptions { allow_relative_path: true }.permits(true));
}

#[test]
fn retries_until_success() {
    let settings = RetrySettings { max_retries: 3, ..RetrySettings::default() };
    let mut attempts = 0;
    let mut retry_count = 0;
    let result = loop {
        attempts += 1;
        let result = attempts;
        match next_retry_step(settings, retry_count, result < 3) {
            RetryStep::Finish => break result,
            RetryStep::Retry => {}
            RetryStep::SleepThenRetry(_) => unreachable!(),
        }
        retry_count += 1;
    };
    assert_eq!(result, 3);
    assert_eq!(attempts, 3);
}
