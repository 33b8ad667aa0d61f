use portwitch::lsof::{
    decode, listening, parse_lsof_line, parse_lsof_output, parse_lsof_part, process_set,
    FieldSet, FieldType, Process,
};

/// One line of output: the fields, each closed by a NUL byte, and a line feed.
fn line(fields: &[&str]) -> Vec<u8> {
    let mut bytes = Vec::new();
    for field in fields {
        bytes.extend_from_slice(field.as_bytes());
        bytes.push(0);
    }
    bytes.push(b'\n');
    bytes
}

fn output(lines: &[&[&str]]) -> Vec<u8> {
    lines.iter().flat_map(|fields| line(fields)).collect()
}

fn process(pid: usize, command: &str, ports: &[&str]) -> Process {
    Process {
        pid,
        command: command.to_string(),
        ports: ports.iter().map(|port| port.to_string()).collect(),
    }
}

#[test]
fn prefix_of_each_kind() {
    assert_eq!(FieldType::Pid.prefix(), "p");
    assert_eq!(FieldType::Command.prefix(), "c");
    assert_eq!(FieldType::Network.prefix(), "n");
    assert_eq!(FieldType::TcpState.prefix(), "TST=");
}

#[test]
fn part_with_known_prefix_is_a_field() {
    assert_eq!(parse_lsof_part(b"p100"), Some((FieldType::Pid, "100")));
    assert_eq!(parse_lsof_part(b"csshd"), Some((FieldType::Command, "sshd")));
    assert_eq!(parse_lsof_part(b"n0.0.0.0:22"), Some((FieldType::Network, "0.0.0.0:22")));
    assert_eq!(parse_lsof_part(b"TST=LISTEN"), Some((FieldType::TcpState, "LISTEN")));
}

#[test]
fn part_with_bare_prefix_has_empty_payload() {
    assert_eq!(parse_lsof_part(b"p"), Some((FieldType::Pid, "")));
    assert_eq!(parse_lsof_part(b"TST="), Some((FieldType::TcpState, "")));
}

#[test]
fn part_with_unknown_prefix_is_no_field() {
    assert_eq!(parse_lsof_part(b""), None);
    assert_eq!(parse_lsof_part(b"f3"), None);
    assert_eq!(parse_lsof_part(b"PTCP"), None);
    assert_eq!(parse_lsof_part(b"TQR=0"), None);
    assert_eq!(parse_lsof_part(b"TST"), None);
    assert_eq!(parse_lsof_part(b"R1"), None);
}

#[test]
fn part_with_payload_that_is_not_utf8_is_no_field() {
    assert_eq!(parse_lsof_part(&[b'c', 0xff, 0xfe]), None);
    assert_eq!(parse_lsof_part(&[b'n', 0xc3]), None);
    assert_eq!(parse_lsof_part(&[b'c', 0xc3, 0xa9]), Some((FieldType::Command, "é")));
}

#[test]
fn line_gives_one_field_of_each_kind() {
    let set = parse_lsof_line(b"p100\0csshd\0R1\0");
    assert_eq!(set.pid, Some("100"));
    assert_eq!(set.command, Some("sshd"));
    assert_eq!(set.network, None);
    assert_eq!(set.tcp_state, None);
    assert_eq!(set.get(FieldType::Pid), Some("100"));
    assert_eq!(set.get(FieldType::Network), None);
    assert!(set.contains_key(FieldType::Command));
    assert!(!set.contains_key(FieldType::TcpState));
}

#[test]
fn line_without_known_fields_is_empty() {
    let set = parse_lsof_line(b"");
    assert_eq!((set.pid, set.command, set.network, set.tcp_state), (None, None, None, None));
    let set = parse_lsof_line(b"f3\0PTCP\0TQR=0\0");
    assert_eq!((set.pid, set.command, set.network, set.tcp_state), (None, None, None, None));
}

#[test]
fn later_field_of_a_kind_overwrites_the_earlier_one() {
    let set = parse_lsof_line(b"cfirst\0csecond\0");
    assert_eq!(set.command, Some("second"));
    let mut set = FieldSet::new();
    set.insert(FieldType::Network, "*:80");
    set.insert(FieldType::Network, "*:443");
    assert_eq!(set.network, Some("*:443"));
}

#[test]
fn file_line_gives_address_and_state() {
    let set = parse_lsof_line(b"f3\0PTCP\0n*:8080\0TST=LISTEN\0TQR=0\0TQS=0\0");
    assert_eq!(set.network, Some("*:8080"));
    assert_eq!(set.tcp_state, Some("LISTEN"));
    assert_eq!(set.pid, None);
}

fn header<'a>(pid: &'a str, command: &'a str) -> FieldSet<'a> {
    FieldSet { pid: Some(pid), command: Some(command), network: None, tcp_state: None }
}

fn socket<'a>(network: &'a str, tcp_state: &'a str) -> FieldSet<'a> {
    FieldSet { pid: None, command: None, network: Some(network), tcp_state: Some(tcp_state) }
}

#[test]
fn group_reduces_to_process_with_listening_ports() {
    let group = [
        header("100", "sshd"),
        socket("0.0.0.0:22", "LISTEN"),
        socket("10.0.0.1:22", "ESTABLISHED"),
    ];
    assert_eq!(process_set(&group), Some(process(100, "sshd", &["0.0.0.0:22"])));
}

#[test]
fn empty_group_is_no_process() {
    assert_eq!(process_set(&[]), None);
}

#[test]
fn group_with_header_only_has_no_ports() {
    assert_eq!(process_set(&[header("7", "init")]), Some(process(7, "init", &[])));
}

#[test]
fn group_without_pid_is_dropped() {
    let mut first = header("1", "a");
    first.pid = None;
    assert_eq!(process_set(&[first, socket("*:1", "LISTEN")]), None);
}

#[test]
fn group_without_command_is_dropped() {
    let mut first = header("1", "a");
    first.command = None;
    assert_eq!(process_set(&[first, socket("*:1", "LISTEN")]), None);
}

#[test]
fn group_with_unreadable_pid_is_dropped() {
    for pid in ["", "abc", "12x", "-3", " 4", "4 ", "1.5", "99999999999999999999999999"] {
        assert_eq!(process_set(&[header(pid, "a"), socket("*:1", "LISTEN")]), None, "{pid:?}");
    }
}

#[test]
fn header_line_never_gives_a_port() {
    let mut first = header("5", "a");
    first.network = Some("*:5");
    first.tcp_state = Some("LISTEN");
    assert_eq!(process_set(&[first]), Some(process(5, "a", &[])));
}

#[test]
fn ports_are_kept_once_in_first_seen_order() {
    let group = [
        header("200", "nginx"),
        socket("*:80", "LISTEN"),
        socket("*:443", "LISTEN"),
        socket("*:80", "LISTEN"),
        socket("[::]:80", "LISTEN"),
        socket("*:443", "LISTEN"),
    ];
    assert_eq!(process_set(&group), Some(process(200, "nginx", &["*:80", "*:443", "[::]:80"])));
}

#[test]
fn state_other_than_listen_gives_no_port() {
    for state in ["ESTABLISHED", "CLOSE_WAIT", "listen", "LISTEN ", "LISTENING", "", "LISTE"] {
        let group = [header("1", "a"), socket("*:1", state)];
        assert_eq!(process_set(&group), Some(process(1, "a", &[])), "{state:?}");
    }
}

#[test]
fn line_without_state_or_without_address_gives_no_port() {
    let mut no_state = socket("*:1", "LISTEN");
    no_state.tcp_state = None;
    let mut no_address = socket("*:1", "LISTEN");
    no_address.network = None;
    assert_eq!(process_set(&[header("1", "a"), no_state, no_address]), Some(process(1, "a", &[])));
}

#[test]
fn two_groups_with_duplicate_and_established_lines() {
    let out = output(&[
        &["p100", "csshd"],
        &["n0.0.0.0:22", "TST=LISTEN"],
        &["n10.0.0.1:22", "TST=ESTABLISHED"],
        &["p200", "cnginx"],
        &["n0.0.0.0:80", "TST=LISTEN"],
        &["n0.0.0.0:80", "TST=LISTEN"],
    ]);
    let expected = vec![process(100, "sshd", &["0.0.0.0:22"]), process(200, "nginx", &["0.0.0.0:80"])];
    assert_eq!(parse_lsof_output(&out), expected);
    assert_eq!(decode(&out), expected);
}

#[test]
fn group_without_command_is_dropped_and_the_next_one_decodes() {
    let out = output(&[
        &["p100"],
        &["n0.0.0.0:22", "TST=LISTEN"],
        &["p200", "cnginx"],
        &["n0.0.0.0:80", "TST=LISTEN"],
    ]);
    let expected = vec![process(200, "nginx", &["0.0.0.0:80"])];
    assert_eq!(parse_lsof_output(&out), expected);
    assert_eq!(decode(&out), expected);
}

#[test]
fn group_with_unreadable_pid_is_dropped_and_the_next_one_decodes() {
    let out = output(&[
        &["pabc", "cbroken"],
        &["n*:1", "TST=LISTEN"],
        &["p42", "cfine"],
        &["n*:2", "TST=LISTEN"],
    ]);
    assert_eq!(decode(&out), vec![process(42, "fine", &["*:2"])]);
}

#[test]
fn decoding_the_same_bytes_gives_the_same_inventory() {
    let out = output(&[
        &["p41", "ca"],
        &["n*:3", "TST=LISTEN"],
        &["n*:1", "TST=LISTEN"],
        &["n*:2", "TST=LISTEN"],
        &["n*:1", "TST=LISTEN"],
        &["p42", "cb"],
        &["n*:9", "TST=LISTEN"],
    ]);
    let first = decode(&out);
    for _ in 0..20 {
        assert_eq!(decode(&out), first);
    }
    assert_eq!(first, vec![process(41, "a", &["*:3", "*:1", "*:2"]), process(42, "b", &["*:9"])]);
}

#[test]
fn inventory_holds_only_processes_with_a_port() {
    let out = output(&[
        &["p41", "cidle"],
        &["p42", "cclient"],
        &["n10.0.0.1:5000->10.0.0.2:443", "TST=ESTABLISHED"],
        &["p43", "cserver"],
        &["n*:443", "TST=LISTEN"],
    ]);
    assert_eq!(
        parse_lsof_output(&out),
        vec![process(41, "idle", &[]), process(42, "client", &[]), process(43, "server", &["*:443"])]
    );
    let snapshot = decode(&out);
    assert_eq!(snapshot, vec![process(43, "server", &["*:443"])]);
    assert!(snapshot.iter().all(|p| !p.ports.is_empty()));
}

#[test]
fn listening_keeps_the_processes_with_a_port_in_order() {
    let all = vec![
        process(4, "d", &["*:4"]),
        process(3, "c", &[]),
        process(2, "b", &["*:2", "*:20"]),
        process(1, "a", &[]),
    ];
    assert_eq!(listening(all), vec![process(4, "d", &["*:4"]), process(2, "b", &["*:2", "*:20"])]);
    assert_eq!(listening(vec![]), vec![]);
    assert_eq!(listening(vec![process(1, "a", &[])]), vec![]);
}

#[test]
fn lines_before_the_first_pid_are_dropped() {
    let out = output(&[
        &["n*:1", "TST=LISTEN"],
        &["corphan"],
        &[],
        &["p10", "creal"],
        &["n*:10", "TST=LISTEN"],
    ]);
    assert_eq!(decode(&out), vec![process(10, "real", &["*:10"])]);
}

#[test]
fn line_without_pid_starts_no_record() {
    let out = output(&[
        &["p10", "creal"],
        &["cother"],
        &["n*:10", "TST=LISTEN"],
        &["cthird", "n*:11", "TST=LISTEN"],
    ]);
    assert_eq!(decode(&out), vec![process(10, "real", &["*:10", "*:11"])]);
}

#[test]
fn empty_output_is_an_empty_inventory() {
    assert_eq!(parse_lsof_output(b""), vec![]);
    assert_eq!(decode(b""), vec![]);
    assert_eq!(decode(b"\n\n\n"), vec![]);
}

#[test]
fn output_without_final_line_feed_decodes() {
    assert_eq!(decode(b"p41\0ca\0\nn*:1\0TST=LISTEN"), vec![process(41, "a", &["*:1"])]);
}

#[test]
fn fields_of_one_line_need_no_final_nul() {
    assert_eq!(decode(b"p41\0ca\nn*:1\0TST=LISTEN\n"), vec![process(41, "a", &["*:1"])]);
}

#[test]
fn pid_with_plus_sign_and_leading_zeros_is_read() {
    assert_eq!(decode(&output(&[&["p+007", "ca"], &["n*:1", "TST=LISTEN"]])), vec![process(7, "a", &["*:1"])]);
}

#[test]
fn command_that_is_not_utf8_drops_the_group() {
    let mut out = vec![b'p', b'1', 0, b'c', 0xff, 0, b'\n'];
    out.extend(line(&["n*:1", "TST=LISTEN"]));
    out.extend(line(&["p42", "cb"]));
    out.extend(line(&["n*:2", "TST=LISTEN"]));
    assert_eq!(decode(&out), vec![process(42, "b", &["*:2"])]);
}

#[test]
fn real_output_of_the_tool_decodes() {
    let out = b"p812\0R1\0csshd\0\nf3\0PTCP\0TST=LISTEN\0TQR=0\0TQS=0\0n*:22\0\nf4\0PTCP\0TST=LISTEN\0TQR=0\0TQS=0\0n*:22\0\np1201\0R1\0cpostgres\0\nf7\0PTCP\0TST=LISTEN\0TQR=0\0TQS=0\0n127.0.0.1:5432\0\nf8\0PUDP\0n127.0.0.1:53\0\n";
    assert_eq!(
        decode(out),
        vec![process(812, "sshd", &["*:22"]), process(1201, "postgres", &["127.0.0.1:5432"])]
    );
}
