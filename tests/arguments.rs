use en::syntax::arguments::{parse_arguments, parse_port, ArgumentError, Arguments};

fn words(ws: &[&str]) -> Vec<String> {
    ws.iter().map(|w| w.to_string()).collect()
}

#[test]
fn default_arguments() {
    let a = Arguments::new();
    assert_eq!(a.hostname, "0.0.0.0");
    assert_eq!(a.port, 0);
    assert_eq!(a.graph_path, "./static/graph.toml");
    assert_eq!(a.make_address(), "0.0.0.0:0");
}

#[test]
fn address_with_port() {
    let a = Arguments { hostname: "localhost".to_string(), port: 8080, graph_path: String::new() };
    assert_eq!(a.make_address(), "localhost:8080");
}

#[test]
fn options_after_program_name() {
    let a = parse_arguments(
        &Arguments::new(),
        &words(&["en", "-h", "example.org", "--port", "3000", "-g", "g.toml"]),
    )
    .unwrap();
    assert_eq!(a.hostname, "example.org");
    assert_eq!(a.port, 3000);
    assert_eq!(a.graph_path, "g.toml");
}

#[test]
fn options_without_program_name() {
    let a = parse_arguments(&Arguments::new(), &words(&["--hostname", "h"])).unwrap();
    assert_eq!(a.hostname, "h");
}

#[test]
fn bad_port_keeps_default() {
    let a = parse_arguments(&Arguments::new(), &words(&["en", "-p", "99999", "-x", "y"])).unwrap();
    assert_eq!(a.port, 0);
}

#[test]
fn flag_without_value() {
    let r = parse_arguments(&Arguments::new(), &words(&["en", "-p"]));
    assert_eq!(r, Err(ArgumentError::MissingValue("-p".to_string())));
}

#[test]
fn port_reading() {
    assert_eq!(parse_port(&"65535".to_string()), Some(65535));
    assert_eq!(parse_port(&"+80".to_string()), Some(80));
    assert_eq!(parse_port(&"65536".to_string()), None);
    assert_eq!(parse_port(&"".to_string()), None);
    assert_eq!(parse_port(&"+".to_string()), None);
    assert_eq!(parse_port(&"8a".to_string()), None);
    for s in ["0", "1", "443", "007", "+65535", "-1", "70000", "12345678901"] {
        assert_eq!(parse_port(&s.to_string()), s.parse::<u16>().ok(), "{s}");
    }
}
