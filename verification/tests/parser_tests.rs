use kernel::shell::parse_line;

#[test]
fn test_parse_simple() {
    let cmd = parse_line("ls -la /tmp").unwrap();
    assert_eq!(cmd.cmd, "ls");
    assert_eq!(cmd.args, vec!["-la", "/tmp"]);
    assert!(cmd.redirect.is_none());
}

#[test]
fn test_parse_redirect() {
    let cmd = parse_line("echo hello > output.txt").unwrap();
    assert_eq!(cmd.cmd, "echo");
    assert_eq!(cmd.args, vec!["hello"]);
    assert_eq!(cmd.redirect, Some((String::from("output.txt"), false)));
}

#[test]
fn test_parse_append() {
    let cmd = parse_line("echo world >> log.txt").unwrap();
    assert_eq!(cmd.cmd, "echo");
    assert_eq!(cmd.args, vec!["world"]);
    assert_eq!(cmd.redirect, Some((String::from("log.txt"), true)));
}

#[test]
fn test_parse_empty() {
    assert!(parse_line("").is_none());
    assert!(parse_line("   ").is_none());
}

#[test]
fn parse_keeps_words_in_order_across_whitespace() {
    let cmd = parse_line("  cp\ta.txt \t b.txt  ").unwrap();
    assert_eq!(cmd.cmd, "cp");
    assert_eq!(cmd.args, vec!["a.txt", "b.txt"]);
    assert!(cmd.redirect.is_none());
}

#[test]
fn parse_redirect_only_is_none() {
    assert!(parse_line("> out.txt").is_none());
    assert!(parse_line(">> out.txt").is_none());
}

#[test]
fn parse_redirect_without_spaces() {
    let cmd = parse_line("echo hi>>log").unwrap();
    assert_eq!(cmd.cmd, "echo");
    assert_eq!(cmd.args, vec!["hi"]);
    assert_eq!(cmd.redirect, Some((String::from("log"), true)));
    let cmd = parse_line("echo a > b > c").unwrap();
    assert_eq!(cmd.args, vec!["a"]);
    assert_eq!(cmd.redirect, Some((String::from("b > c"), false)));
}
