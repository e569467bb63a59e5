use replicated_kv::config::metrics::{
    default_metrics_enable, default_metrics_path, default_metrics_port, default_metrics_push,
    default_metrics_push_endpoint, default_metrics_push_protocol, MetricsConfig, PushProtocol,
};
use replicated_kv::parse_metrics_push_protocol;
use replicated_kv::parser::ConfigParseError;

#[test]
fn default_functions_return_documented_values() {
    assert!(default_metrics_enable());
    assert_eq!(default_metrics_port(), 9100);
    assert_eq!(default_metrics_path(), "/metrics");
    assert!(!default_metrics_push());
    assert_eq!(default_metrics_push_endpoint(), "http://127.0.0.1:4318");
    assert_eq!(default_metrics_push_protocol(), PushProtocol::GRPC);
}

#[test]
fn default_config_holds_the_defaults() {
    let config = MetricsConfig::default();
    assert_eq!(*config.enable(), true);
    assert_eq!(*config.port(), 9100);
    assert_eq!(config.path(), "/metrics");
    assert_eq!(*config.push(), false);
    assert_eq!(config.push_endpoint(), "http://127.0.0.1:4318");
    assert_eq!(*config.push_protocol(), PushProtocol::GRPC);
}

#[test]
fn default_config_equals_new_with_defaults() {
    let built = MetricsConfig::new(
        default_metrics_enable(),
        default_metrics_port(),
        default_metrics_path(),
        default_metrics_push(),
        default_metrics_push_endpoint(),
        default_metrics_push_protocol(),
    );
    assert_eq!(built, MetricsConfig::default());
}

#[test]
fn new_keeps_every_field() {
    let config = MetricsConfig::new(
        false,
        8080,
        "/stats".to_owned(),
        true,
        "http://collector:4317".to_owned(),
        PushProtocol::HTTP,
    );
    assert_eq!(*config.enable(), false);
    assert_eq!(*config.port(), 8080);
    assert_eq!(config.path(), "/stats");
    assert_eq!(*config.push(), true);
    assert_eq!(config.push_endpoint(), "http://collector:4317");
    assert_eq!(*config.push_protocol(), PushProtocol::HTTP);
}

#[test]
fn config_equality_compares_every_field() {
    let base = MetricsConfig::default();
    assert_eq!(base.clone(), base);
    let other_port = MetricsConfig::new(
        true,
        9101,
        "/metrics".to_owned(),
        false,
        "http://127.0.0.1:4318".to_owned(),
        PushProtocol::GRPC,
    );
    assert_ne!(other_port, base);
    let other_path = MetricsConfig::new(
        true,
        9100,
        "/metric".to_owned(),
        false,
        "http://127.0.0.1:4318".to_owned(),
        PushProtocol::GRPC,
    );
    assert_ne!(other_path, base);
    let other_protocol = MetricsConfig::new(
        true,
        9100,
        "/metrics".to_owned(),
        false,
        "http://127.0.0.1:4318".to_owned(),
        PushProtocol::HTTP,
    );
    assert_ne!(other_protocol, base);
    let other_endpoint = MetricsConfig::new(
        true,
        9100,
        "/metrics".to_owned(),
        false,
        "http://127.0.0.1:4319".to_owned(),
        PushProtocol::GRPC,
    );
    assert_ne!(other_endpoint, base);
}

#[test]
fn push_protocol_defaults_to_grpc() {
    assert_eq!(PushProtocol::default(), PushProtocol::GRPC);
}

#[test]
fn push_protocol_renders_in_lower_case() {
    assert_eq!(PushProtocol::HTTP.to_string(), "http");
    assert_eq!(PushProtocol::GRPC.to_string(), "grpc");
}

#[test]
fn parse_accepts_both_protocols() {
    assert_eq!(parse_metrics_push_protocol("http"), Ok(PushProtocol::HTTP));
    assert_eq!(parse_metrics_push_protocol("grpc"), Ok(PushProtocol::GRPC));
}

#[test]
fn parse_rejects_everything_else() {
    assert_eq!(
        parse_metrics_push_protocol("tcp"),
        Err(ConfigParseError::InvalidValue("tcp".to_owned()))
    );
    assert_eq!(
        parse_metrics_push_protocol("HTTP"),
        Err(ConfigParseError::InvalidValue("HTTP".to_owned()))
    );
    assert_eq!(
        parse_metrics_push_protocol(""),
        Err(ConfigParseError::InvalidValue(String::new()))
    );
    assert_eq!(
        parse_metrics_push_protocol("grpc "),
        Err(ConfigParseError::InvalidValue("grpc ".to_owned()))
    );
}

#[test]
fn parse_reads_back_what_to_string_writes() {
    for protocol in [PushProtocol::HTTP, PushProtocol::GRPC] {
        assert_eq!(parse_metrics_push_protocol(&protocol.to_string()), Ok(protocol));
    }
}

#[test]
fn parse_error_names_the_rejected_text() {
    let error = parse_metrics_push_protocol("udp").unwrap_err();
    assert_eq!(error.message(), "invalid value: udp");
}
