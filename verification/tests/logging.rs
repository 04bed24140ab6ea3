use r_vlr_util::logging::{file_name_from, format_position, CodeContext, Level, Logger, MessageContext};
use std::sync::{Arc, Mutex};

#[test]
fn code_context_and_level_filter_work() {
    let context = CodeContext { file: "tests/logging.rs", line: 5, function: "logging" };
    assert!(context.file_name().ends_with("logging.rs"));
    let messages = Arc::new(Mutex::new(Vec::new()));
    let captured = Arc::clone(&messages);
    let logger = Logger::new(Level::Info, move |_: &MessageContext, message: &str| {
        captured.lock().unwrap().push(message.to_owned());
    });
    assert!(!logger.log(
        &MessageContext {
            level: Level::Debug,
            ..MessageContext::default()
        },
        "debug"
    ));
    assert!(logger.log(&MessageContext::default(), "info"));
    assert_eq!(*messages.lock().unwrap(), ["info"]);
}

#[test]
fn file_name_is_the_final_component() {
    let context = CodeContext { file: "src/windows/registry.rs", line: 42, function: "registry" };
    assert_eq!(context.file_name(), "registry.rs");
    assert_eq!(context.position(), "registry.rs:42");
    let bare = CodeContext { file: "main.rs", line: 7, function: "main" };
    assert_eq!(bare.file_name(), "main.rs");
}

#[test]
fn unknown_file_has_unknown_position() {
    assert_eq!(CodeContext::default().position(), "[unknown]");
    assert_eq!(format_position("a.rs", 0), "a.rs:0");
    assert_eq!(format_position("a.rs", 4_294_967_295), "a.rs:4294967295");
}

#[test]
fn levels_are_ordered_by_severity() {
    assert!(Level::Debug < Level::Trace);
    assert!(Level::Error < Level::Critical);
    assert_eq!(Level::default(), Level::Info);
    assert_eq!(Level::Critical.rank(), 6);
    let logger = Logger::new(Level::Warning, |_: &MessageContext, _: &str| {});
    let error = MessageContext { level: Level::Error, ..MessageContext::default() };
    let info = MessageContext::default();
    assert!(logger.could_log(&error));
    assert!(!logger.could_log(&info));
}

#[test]
fn file_name_falls_back_to_the_whole_path() {
    assert_eq!(file_name_from("dir/a.rs", Some("a.rs")), "a.rs");
    assert_eq!(file_name_from("..", None), "..");
    assert_eq!(CodeContext { file: "..", line: 1, function: "f" }.file_name(), "..");
}
