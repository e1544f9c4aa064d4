use pa3::cli::{get_cmdline_from_args, parse_shell_args};
use pa3::gash::{packetize, Command_Parse, LineAction, Packet, Shell, Stage, BUFF_SIZE};

fn parts(line: &str) -> (String, String, String, bool) {
    let c = Command_Parse::new(line);
    (c.cmd_line, c.input_file, c.output_file, c.background_flag)
}

fn s(x: &str) -> String {
    x.to_string()
}

#[test]
fn command_without_redirection() {
    assert_eq!(parts("ls -l"), (s("ls -l"), s(""), s(""), false));
}

#[test]
fn command_in_background() {
    assert_eq!(parts("sleep 5&"), (s("sleep 5"), s(""), s(""), true));
    assert_eq!(parts("&"), (s(""), s(""), s(""), true));
    assert_eq!(parts(""), (s(""), s(""), s(""), false));
}

#[test]
fn command_with_output_only() {
    assert_eq!(parts("echo hi > a"), (s("echo hi "), s(""), s(" a"), false));
}

#[test]
fn command_with_input_only() {
    assert_eq!(parts("wc < f"), (s("wc "), s(" f"), s(""), false));
}

#[test]
fn command_with_input_then_output() {
    assert_eq!(
        parts("cat < in.txt > out.txt &"),
        (s("cat "), s(" in.txt "), s(" out.txt "), true)
    );
}

#[test]
fn command_with_output_then_input() {
    assert_eq!(parts("sort > out < in"), (s("sort "), s(" in"), s(" out "), false));
}

#[test]
fn command_uses_last_redirection() {
    assert_eq!(parts("a > b > c"), (s("a > b "), s(""), s(" c"), false));
}

fn bytes_of(p: &Packet) -> Vec<u8> {
    p.get_bytes().to_vec()
}

#[test]
fn packetize_empty_stream() {
    let ps = packetize(&Vec::new());
    assert_eq!(ps.len(), 1);
    assert_eq!(ps[0].length, 0);
    assert!(ps[0].end_of_stream);
}

#[test]
fn packetize_exact_buffer() {
    let b: Vec<u8> = (0..64).map(|i| i as u8).collect();
    let ps = packetize(&b);
    assert_eq!(ps.len(), 1);
    assert_eq!(bytes_of(&ps[0]), b);
    assert!(ps[0].end_of_stream);
}

#[test]
fn packetize_long_stream() {
    let b: Vec<u8> = (0..130).map(|i| (i % 251) as u8).collect();
    let ps = packetize(&b);
    assert_eq!(ps.len(), 3);
    assert_eq!(ps[0].length, 64);
    assert_eq!(ps[1].length, 64);
    assert_eq!(ps[2].length, 2);
    assert!(!ps[0].end_of_stream && !ps[1].end_of_stream && ps[2].end_of_stream);
    let mut joined = Vec::new();
    for p in &ps {
        joined.extend(bytes_of(p));
    }
    assert_eq!(joined, b);
}

#[test]
fn packet_from_chunk_marks_short_reads() {
    let mut payload = [0u8; BUFF_SIZE];
    payload[0] = b'h';
    payload[1] = b'i';
    let p = Packet::from_chunk(payload, 2);
    assert!(p.end_of_stream);
    assert_eq!(p.to_string(), "hi");
    let full = Packet::from_chunk([b'x'; BUFF_SIZE], BUFF_SIZE);
    assert!(!full.end_of_stream);
    assert_eq!(full.get_bytes().len(), BUFF_SIZE);
}

#[test]
fn packet_to_string_replaces_invalid_bytes() {
    let mut payload = [0u8; BUFF_SIZE];
    payload[0] = b'f';
    payload[1] = 0xff;
    let p = Packet::from_chunk(payload, 2);
    assert_eq!(p.to_string(), "f\u{fffd}");
}

#[test]
fn packet_with_oversized_length_carries_whole_payload() {
    let p = Packet { payload: [b'a'; BUFF_SIZE], length: 100, end_of_stream: false };
    assert_eq!(p.get_bytes().len(), BUFF_SIZE);
}

#[test]
fn start_and_end_packets() {
    let a = Packet::start_packet();
    let b = Packet::end_packet();
    assert!(!a.end_of_stream && b.end_of_stream);
    assert_eq!(a.get_bytes().len(), 0);
    assert_eq!(b.to_string(), "");
}

#[test]
fn history_records_lines_with_newlines() {
    let mut sh = Shell::new("gash > ");
    sh.add_to_history(s("ls"));
    sh.add_to_history(s("pwd"));
    assert_eq!(sh.history, vec![s("ls\n"), s("pwd\n")]);
    assert_eq!(sh.cmd_prompt, "gash > ");
    let ps = sh.run_history();
    assert_eq!(ps.len(), 1);
    assert_eq!(ps[0].to_string(), "ls\npwd\n");
    assert!(ps[0].end_of_stream);
}

#[test]
fn history_spans_packets() {
    let mut sh = Shell::new("");
    let long = "x".repeat(70);
    sh.add_to_history(long.clone());
    let ps = sh.run_history();
    assert_eq!(ps.len(), 2);
    assert_eq!(ps[0].length, 64);
    assert_eq!(ps[1].to_string(), "xxxxxx\n");
}

#[test]
fn interpret_lines_at_prompt() {
    assert!(matches!(Shell::interpret_line("   \n"), LineAction::Skip));
    assert!(matches!(Shell::interpret_line(" exit \n"), LineAction::Exit));
    match Shell::interpret_line("\t ls -l \n") {
        LineAction::Run(l) => assert_eq!(l, "ls -l"),
        _ => panic!("expected a command"),
    }
    assert!(matches!(Shell::interpret_line("exit now"), LineAction::Run(_)));
}

#[test]
fn spawn_command_splits_words() {
    let sh = Shell::new("");
    let c = sh.spawn_command("  ls   -l  a ").unwrap();
    assert_eq!(c.program, "ls");
    assert_eq!(c.args, vec![s("-l"), s("a")]);
    assert!(sh.spawn_command("    ").is_none());
}

#[test]
fn stages_of_segments() {
    match Shell::stage_for(" cd /tmp ") {
        Stage::ChangeDir(d) => assert_eq!(d, "/tmp"),
        _ => panic!("expected cd"),
    }
    assert!(Shell::is_bare_cd(" cd "));
    assert!(!Shell::is_bare_cd("cd x"));
    match Shell::stage_for("cd  x") {
        Stage::ChangeDir(d) => assert_eq!(d, " x"),
        _ => panic!("expected cd"),
    }
    assert!(matches!(Shell::stage_for(" history "), Stage::History));
    match Shell::stage_for("historyx") {
        Stage::Spawn(c) => assert_eq!(c, "historyx"),
        _ => panic!("expected a program"),
    }
    match Shell::stage_for(" grep a ") {
        Stage::Spawn(c) => assert_eq!(c, "grep a"),
        _ => panic!("expected a program"),
    }
}

#[test]
fn run_cmdline_plans_pipeline() {
    let mut sh = Shell::new("");
    let plan = sh.run_cmdline("cat | grep a | history > out &");
    assert_eq!(sh.history, vec![s("cat | grep a | history > out &\n")]);
    assert_eq!(plan.input_file, None);
    assert_eq!(plan.output_file, Some(s("out")));
    assert!(plan.background);
    assert_eq!(plan.stages.len(), 3);
    match &plan.stages[0] {
        Stage::Spawn(c) => assert_eq!(c, "cat"),
        _ => panic!("expected cat"),
    }
    match &plan.stages[1] {
        Stage::Spawn(c) => assert_eq!(c, "grep a"),
        _ => panic!("expected grep"),
    }
    assert!(matches!(plan.stages[2], Stage::History));
}

#[test]
fn input_redirection_takes_rest_of_line_up_to_output() {
    let mut sh = Shell::new("");
    let plan = sh.run_cmdline("cat < in | wc > out");
    assert_eq!(plan.input_file, Some(s("in | wc")));
    assert_eq!(plan.output_file, Some(s("out")));
    assert_eq!(plan.stages.len(), 1);
}

#[test]
fn run_cmdline_without_redirection() {
    let mut sh = Shell::new("");
    let plan = sh.run_cmdline("ls");
    assert_eq!(plan.input_file, None);
    assert_eq!(plan.output_file, None);
    assert!(!plan.background);
    assert_eq!(plan.stages.len(), 1);
}

#[test]
fn blank_redirect_target_is_kept_but_trimmed() {
    let mut sh = Shell::new("");
    let plan = sh.run_cmdline("ls > ");
    assert_eq!(plan.output_file, Some(s("")));
}

#[test]
fn cmdline_from_args() {
    assert_eq!(get_cmdline_from_args(&vec![s("-c"), s("ls -l")]), Some(s("ls -l")));
    assert_eq!(get_cmdline_from_args(&vec![]), None);
    assert_eq!(parse_shell_args(&vec![s("-c"), s("pwd")]).ok(), Some(Some(s("pwd"))));
    assert_eq!(parse_shell_args(&vec![s("-x")]).unwrap_err().message(), "Unrecognized option: 'x'");
}

#[test]
fn bare_cd_lines() {
    assert!(Shell::has_bare_cd("ls | cd"));
    assert!(Shell::has_bare_cd(" cd > out"));
    assert!(!Shell::has_bare_cd("cd /tmp | ls"));
    assert!(!Shell::has_bare_cd("cdx"));
}

#[test]
fn parsed_command_reassembles() {
    let (c, i, o, bg) = parts("cat < in.txt > out.txt &");
    assert!(bg);
    assert_eq!(format!("{}<{}>{}", c, i, o), "cat < in.txt > out.txt ");
    let (c, i, o, bg) = parts("sort > out < in");
    assert!(!bg);
    assert_eq!(format!("{}>{}<{}", c, o, i), "sort > out < in");
}

#[test]
fn cmdline_args_failure_message() {
    let e = parse_shell_args(&vec![s("-c")]).unwrap_err();
    assert_eq!(e.message(), "Argument to option 'c' missing");
}

#[test]
fn background_line_plans_like_foreground() {
    let mut a = Shell::new("");
    let mut b = Shell::new("");
    let p = a.run_cmdline("cat < in | wc > out &");
    let q = b.run_cmdline("cat < in | wc > out ");
    assert!(p.background);
    assert!(!q.background);
    assert_eq!(p.input_file, q.input_file);
    assert_eq!(p.output_file, q.output_file);
    assert_eq!(p.stages.len(), q.stages.len());
}
