use darkreach::log_layer::{component_of, level_enabled, level_str, parse_level, LogLevel, drain_step, DrainAction, DrainEvent};

#[test]
fn parse_level_defaults_to_info() {
    assert_eq!(parse_level(""), LogLevel::Info);
    assert_eq!(parse_level("unknown"), LogLevel::Info);
}

#[test]
fn parse_level_recognizes_all_levels() {
    assert_eq!(parse_level("trace"), LogLevel::Trace);
    assert_eq!(parse_level("debug"), LogLevel::Debug);
    assert_eq!(parse_level("info"), LogLevel::Info);
    assert_eq!(parse_level("warn"), LogLevel::Warn);
    assert_eq!(parse_level("warning"), LogLevel::Warn);
    assert_eq!(parse_level("WARNING"), LogLevel::Warn);
    assert_eq!(parse_level("error"), LogLevel::Error);
}

#[test]
fn pending_log_component_extraction() {
    assert_eq!(component_of("darkreach::dashboard::routes_observability"), "routes_observability");
}

#[test]
fn pending_log_component_extraction_single() {
    assert_eq!(component_of("sieve"), "sieve");
}

#[test]
fn component_extraction_edges() {
    assert_eq!(component_of("a:::b"), "b");
    assert_eq!(component_of("a::"), "");
    assert_eq!(component_of("::x"), "x");
    assert_eq!(component_of(""), "");
}

#[test]
fn level_names_and_filtering() {
    assert_eq!(level_str(LogLevel::Warn), "warn");
    assert!(level_enabled(LogLevel::Error, LogLevel::Info));
    assert!(!level_enabled(LogLevel::Debug, LogLevel::Info));
}

#[test]
fn drain_flushes_full_batches_timer_and_close() {
    assert_eq!(drain_step(1, DrainEvent::Received), DrainAction::Wait);
    assert_eq!(drain_step(99, DrainEvent::Received), DrainAction::Wait);
    assert_eq!(drain_step(100, DrainEvent::Received), DrainAction::Flush);
    assert_eq!(drain_step(0, DrainEvent::TimerTick), DrainAction::Wait);
    assert_eq!(drain_step(3, DrainEvent::TimerTick), DrainAction::Flush);
    assert_eq!(drain_step(0, DrainEvent::ChannelClosed), DrainAction::Stop);
    assert_eq!(drain_step(7, DrainEvent::ChannelClosed), DrainAction::FlushAndStop);
}
