use aceai_dp_cli::conf::ConfigServer;
use aceai_dp_cli::docker_compose_parser::{
    get_indent_len, get_node_indent_len, is_parsable, parse, DockerComposeService,
};

fn server(ip: &str) -> ConfigServer {
    ConfigServer {
        ip: ip.to_string(),
        account: "root".to_string(),
        password: "pw".to_string(),
        docker_compose_path: "/opt/app".to_string(),
    }
}

const COMPOSE: &str = "version: '3'
services:
  user-service:
    image: registry/user:latest
    environment:
      - SERVER_PORT=8081
  web-site:
    image: registry/web:latest
  order-service:
    environment:
      - SERVER_PORT=9090
";

#[test]
fn parse_reads_services_and_ports() {
    let r = parse(&COMPOSE.to_string(), &"app.yml".to_string(), &server("10.0.0.1")).unwrap();
    assert_eq!(
        r,
        vec![
            DockerComposeService::new("user-service".into(), "app.yml".into(), "10.0.0.1".into(), 8081),
            DockerComposeService::new("web-site".into(), "app.yml".into(), "10.0.0.1".into(), 0),
            DockerComposeService::new("order-service".into(), "app.yml".into(), "10.0.0.1".into(), 9090),
        ]
    );
}

#[test]
fn parse_of_empty_file_is_empty() {
    let r = parse(&String::new(), &"a.yml".to_string(), &server("h")).unwrap();
    assert!(r.is_empty());
}

#[test]
fn node_without_port_at_end_is_dropped() {
    let text = "services:\n  a:\n    environment:\n      - SERVER_PORT=1\n  b:\n    image: x\n";
    let r = parse(&text.to_string(), &"f.yml".to_string(), &server("h")).unwrap();
    assert_eq!(r, vec![DockerComposeService::new("a".into(), "f.yml".into(), "h".into(), 1)]);
}

#[test]
fn node_indent_counts_every_space_of_first_indented_line() {
    assert_eq!(get_node_indent_len(&COMPOSE.to_string()), 2);
    assert_eq!(get_node_indent_len(&"x:\n  a b c:\n".to_string()), 4);
    assert_eq!(get_node_indent_len(&"x:\n   \n".to_string()), 0);
    assert_eq!(get_node_indent_len(&String::new()), 0);
}

#[test]
fn indent_of_a_line() {
    assert_eq!(get_indent_len(&"    image: x".to_string()), 4);
    assert_eq!(get_indent_len(&"image: x".to_string()), 0);
    assert_eq!(get_indent_len(&"    ".to_string()), 0);
    assert_eq!(get_indent_len(&"  a  b".to_string()), 2);
}

#[test]
fn parsable_rejects_bad_ports() {
    assert!(is_parsable(&COMPOSE.to_string()));
    assert!(!is_parsable(&"s:\n  a:\n    - SERVER_PORT=abc\n".to_string()));
    assert!(!is_parsable(&"s:\n  a:\n    - SERVER_PORT=\n".to_string()));
    // an unindented SERVER_PORT line is not read
    assert!(is_parsable(&"SERVER_PORT=abc\n".to_string()));
}

#[test]
fn unindented_or_blank_lines_are_skipped() {
    let base = "services:\n  a:\n    - SERVER_PORT=1\n  b:\n    - SERVER_PORT=2\n";
    let with_extra = "services:\n  a:\nSERVER_PORT=oops\n    - SERVER_PORT=1\n   \n  b:\n    - SERVER_PORT=2\n";
    let s = server("h");
    let yml = "f.yml".to_string();
    assert_eq!(
        parse(&base.to_string(), &yml, &s).unwrap(),
        parse(&with_extra.to_string(), &yml, &s).unwrap()
    );
    assert_eq!(is_parsable(&base.to_string()), is_parsable(&with_extra.to_string()));
}

#[test]
fn server_credentials_do_not_matter() {
    let mut other = server("10.0.0.1");
    other.account = "admin".into();
    other.password = "secret".into();
    other.docker_compose_path = "/elsewhere".into();
    let yml = "app.yml".to_string();
    assert_eq!(
        parse(&COMPOSE.to_string(), &yml, &server("10.0.0.1")).unwrap(),
        parse(&COMPOSE.to_string(), &yml, &other).unwrap()
    );
}

#[test]
fn collect_services_concatenates_files() {
    let other = "services:\n  b:\n    - SERVER_PORT=7\n";
    let files = vec![
        ("app.yml".to_string(), COMPOSE.to_string()),
        ("b.yml".to_string(), other.to_string()),
    ];
    let got = aceai_dp_cli::conf::collect_services(&server("10.0.0.1"), &files);
    let mut expected = parse(&COMPOSE.to_string(), &"app.yml".to_string(), &server("10.0.0.1")).unwrap();
    expected.extend(parse(&other.to_string(), &"b.yml".to_string(), &server("10.0.0.1")).unwrap());
    assert_eq!(got.len(), 4);
    assert_eq!(got, expected);
}
