use riddle::args::{command, Command};

fn read(words: &[&str]) -> Command {
    let args: Vec<String> = words.iter().map(|w| w.to_string()).collect();
    command(&args, "/tmp/page.png")
}

#[test]
fn nothing_opens_the_diary() {
    assert!(matches!(read(&[]), Command::Open));
    assert!(matches!(read(&["riddle"]), Command::Open));
    assert!(matches!(read(&["riddle", "word"]), Command::Open));
    assert!(matches!(read(&["riddle", ""]), Command::Open));
}

#[test]
fn flags_are_told_apart() {
    assert!(matches!(read(&["riddle", "--version"]), Command::Version));
    assert!(matches!(read(&["riddle", "-V"]), Command::Version));
    assert!(matches!(read(&["riddle", "--help"]), Command::Help));
    assert!(matches!(read(&["riddle", "-h"]), Command::Help));
}

#[test]
fn oracle_is_tried_on_the_named_page() {
    assert!(matches!(read(&["r", "--oracle-test", "a.png"]), Command::OracleTest { png } if png == "a.png"));
    assert!(matches!(read(&["r", "--oracle-test"]), Command::OracleTest { png } if png == "/tmp/page.png"));
}

#[test]
fn unknown_flags_are_named() {
    assert!(matches!(read(&["r", "-v"]), Command::Unknown { flag } if flag == "-v"));
    assert!(matches!(read(&["r", "-"]), Command::Unknown { flag } if flag == "-"));
    assert!(matches!(read(&["r", "--versions"]), Command::Unknown { flag } if flag == "--versions"));
}
