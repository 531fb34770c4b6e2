use aceai_dp_cli::conf::ConfigServer;
use aceai_dp_cli::ssh_client::{
    cat_compose_file_command, fetch_docker_compose_content, find_docker_compose_files,
    list_compose_files_command, running_message, shell_input, ShellTranscript, MAX_SHELL_READS,
};

fn server() -> ConfigServer {
    ConfigServer {
        ip: "h".into(),
        account: "a".into(),
        password: "p".into(),
        docker_compose_path: "/srv/compose".into(),
    }
}

#[test]
fn remote_commands() {
    assert_eq!(list_compose_files_command(&server()), "cd /srv/compose; ls *.yml");
    assert_eq!(cat_compose_file_command(&server(), &"app.yml".to_string()), "cat /srv/compose/app.yml");
    assert_eq!(shell_input(&"ls".to_string()), "ls\n");
    assert_eq!(running_message(3), "running 3 s");
}

#[test]
fn listing_output_is_split_into_files() {
    let out = b"a.yml\nb.yml\n".to_vec();
    assert_eq!(find_docker_compose_files(out), vec!["a.yml".to_string(), "b.yml".to_string()]);
    assert!(find_docker_compose_files(Vec::new()).is_empty());
}

#[test]
fn file_output_is_decoded() {
    let text = "services:\n  café: {}\n";
    assert_eq!(fetch_docker_compose_content(text.as_bytes().to_vec()), text);
}

#[test]
fn shell_transcript_collects_lines() {
    let mut t = ShellTranscript::new();
    assert!(t.wants_more());
    assert!(t.take_output(b"line 1\r\nline 2\n".to_vec()));
    assert!(t.take_output(b" Container x  Started".to_vec()));
    assert_eq!(t.lines, vec!["line 1", "line 2", " Container x  Started"]);
    assert_eq!(t.round, 3);
    assert!(!t.take_output(Vec::new()));
    assert_eq!(t.round, 3);
    let mut t = ShellTranscript::new();
    let mut reads = 0;
    while t.wants_more() {
        reads += 1;
        if !t.take_output(b"x\n".to_vec()) {
            break;
        }
    }
    assert_eq!(reads, MAX_SHELL_READS);
}
