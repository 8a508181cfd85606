use ipc_broker::address::{get_local_ip_port, listen_mode, listen_plan, local_ip_port, tcp_port, ListenMode};
use ipc_broker::logger::{logging_level, LogLevel};

#[test]
fn log_levels() {
    assert_eq!(logging_level(true, true, Some("error")), LogLevel::Trace);
    assert_eq!(logging_level(false, true, Some("error")), LogLevel::Debug);
    assert_eq!(logging_level(false, false, Some("trace")), LogLevel::Trace);
    assert_eq!(logging_level(false, false, Some("debug")), LogLevel::Debug);
    assert_eq!(logging_level(false, false, Some("info")), LogLevel::Info);
    assert_eq!(logging_level(false, false, Some("warn")), LogLevel::Warn);
    assert_eq!(logging_level(false, false, Some("error")), LogLevel::Error);
    assert_eq!(logging_level(false, false, Some("loud")), LogLevel::Info);
    assert_eq!(logging_level(false, false, None), LogLevel::Info);
}

#[test]
fn announced_address() {
    assert_eq!(tcp_port(), 5123);
    assert_eq!(local_ip_port(Some("192.168.1.7".to_string())), "192.168.1.7:5123");
    assert_eq!(local_ip_port(None), "0.0.0.0:5123");
}

#[test]
fn listener_modes() {
    assert_eq!(listen_mode("debug"), ListenMode::Debug);
    assert_eq!(listen_mode("release"), ListenMode::Release);
    assert_eq!(listen_mode("staging"), ListenMode::Unknown);
}

#[test]
fn local_address_carries_the_broker_port() {
    let addr = get_local_ip_port();
    assert!(addr.ends_with(":5123"));
    assert!(addr.len() > ":5123".len());
}

#[test]
fn broker_listens_on_tcp_in_every_mode() {
    for mode in ["debug", "release", "staging", ""] {
        let plan = listen_plan(mode);
        assert!(plan.tcp && plan.local);
        assert_eq!(plan.warn_unknown, mode == "staging" || mode.is_empty());
    }
}
