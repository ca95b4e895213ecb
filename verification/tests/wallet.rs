use connectivity::wallet::{parse_port, socket_address, Arguments, Settings};

fn arguments(
    control_port: Option<&str>,
    grpc_port: Option<&str>,
    secret_key: Option<&str>,
    data_path: Option<&str>,
) -> Arguments {
    Arguments {
        control_port: control_port.map(String::from),
        grpc_port: grpc_port.map(String::from),
        secret_key: secret_key.map(String::from),
        data_path: data_path.map(String::from),
    }
}

fn from_file() -> Settings {
    Settings {
        control_port: Some(1),
        grpc_port: Some(2),
        secret_key: Some(String::from("aa")),
        data_path: Some(String::from("/data")),
    }
}

#[test]
fn ports_are_read_as_numbers() {
    for text in vec![
        "0", "7", "80", "+80", "08000", "65536", "4294967295", "4294967296", "99999999999", "",
        "+", "++1", "-1", " 1", "1 ", "1a", "a", "\u{663}",
    ] {
        assert_eq!(parse_port(text), text.parse::<u32>().ok(), "{:?}", text);
    }
}

#[test]
fn port_that_is_written_is_read_back() {
    for port in vec![0, 9, 10, 8080, 65535, 4294967295] {
        let text = socket_address("", port);
        assert_eq!(text, format!(":{}", port));
        assert_eq!(parse_port(&text[1..]), Some(port));
    }
}

#[test]
fn arguments_win_over_the_file() {
    let settings =
        from_file().override_with(arguments(Some("10"), Some("20"), Some("bb"), Some("/other")));
    let settings = settings.complete().unwrap();
    assert_eq!(settings.control_port, 10);
    assert_eq!(settings.grpc_port, 20);
    assert_eq!(settings.secret_key, "bb");
    assert_eq!(settings.data_path, "/other");
}

#[test]
fn without_arguments_the_file_decides() {
    let settings = from_file().override_with(arguments(None, None, None, None)).complete().unwrap();
    assert_eq!(settings.control_port, 1);
    assert_eq!(settings.grpc_port, 2);
    assert_eq!(settings.secret_key, "aa");
    assert_eq!(settings.data_path, "/data");
}

#[test]
fn port_that_cannot_be_read_leaves_the_setting() {
    let settings = from_file().override_with(arguments(Some("http"), Some("-2"), None, None));
    assert_eq!(settings.control_port, Some(1));
    assert_eq!(settings.grpc_port, Some(2));
    let settings = Settings::default().override_with(arguments(Some("http"), None, None, None));
    assert_eq!(settings.control_port, None);
}

#[test]
fn same_arguments_twice_are_the_same_as_once() {
    let once = from_file().override_with(arguments(Some("5"), None, None, Some("/x")));
    assert_eq!(once.control_port, Some(5));
    let twice = once.override_with(arguments(Some("5"), None, None, Some("/x")));
    assert_eq!(twice.control_port, Some(5));
    assert_eq!(twice.grpc_port, Some(2));
    assert_eq!(twice.secret_key.as_deref(), Some("aa"));
    assert_eq!(twice.data_path.as_deref(), Some("/x"));
}

#[test]
fn settings_are_complete_only_with_all_four() {
    let all = (Some("1"), Some("2"), Some("k"), Some("p"));
    let build = |a, b, c, d| Settings::default().override_with(arguments(a, b, c, d)).complete();
    assert!(build(all.0, all.1, all.2, all.3).is_some());
    assert!(build(None, all.1, all.2, all.3).is_none());
    assert!(build(all.0, None, all.2, all.3).is_none());
    assert!(build(all.0, all.1, None, all.3).is_none());
    assert!(build(all.0, all.1, all.2, None).is_none());
}

#[test]
fn addresses_name_the_control_port() {
    let settings = from_file().override_with(arguments(Some("18000"), None, None, None));
    let settings = settings.complete().unwrap();
    assert_eq!(settings.listener_address(), "0.0.0.0:18000");
    assert_eq!(settings.public_address("192.168.0.7"), "192.168.0.7:18000");
}
