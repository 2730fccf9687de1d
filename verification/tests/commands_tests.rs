use darkreach::commands::CommandType;

#[test]
fn command_type_roundtrip() {
    let types = [
        CommandType::Stop,
        CommandType::Restart,
        CommandType::UpdateConfig,
        CommandType::Reassign,
        CommandType::Upgrade,
    ];
    for ct in types {
        let s = ct.as_str();
        let parsed = CommandType::from_str(s).expect("should parse");
        assert_eq!(ct, parsed);
    }
}

#[test]
fn command_type_from_str_unknown_returns_none() {
    assert_eq!(CommandType::from_str("unknown"), None);
    assert_eq!(CommandType::from_str(""), None);
    assert_eq!(CommandType::from_str("STOP"), None);
}

#[test]
fn command_type_default_timeouts_are_positive() {
    let types = [
        CommandType::Stop,
        CommandType::Restart,
        CommandType::UpdateConfig,
        CommandType::Reassign,
        CommandType::Upgrade,
    ];
    for ct in types {
        assert!(ct.default_timeout_secs() > 0, "{:?} timeout should be > 0", ct);
    }
}

#[test]
fn command_type_strings_and_timeouts() {
    assert_eq!(CommandType::UpdateConfig.as_str(), "update_config");
    assert_eq!(CommandType::from_str("reassign"), Some(CommandType::Reassign));
    assert_eq!(CommandType::Stop.default_timeout_secs(), 60);
    assert_eq!(CommandType::Restart.default_timeout_secs(), 120);
    assert_eq!(CommandType::UpdateConfig.default_timeout_secs(), 30);
    assert_eq!(CommandType::Reassign.default_timeout_secs(), 300);
    assert_eq!(CommandType::Upgrade.default_timeout_secs(), 600);
}
