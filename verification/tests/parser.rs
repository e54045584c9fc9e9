use tmux_sessionizer::error::TmsError;
use tmux_sessionizer::tmux::{parse_line, parse_sessions, SessionStats};

#[test]
fn parses_every_line_of_a_conforming_listing() {
    let text = "work: 3 windows (created Mon)\nplay: 2 windows (created Tue) (attached)\n";
    let sessions = parse_sessions(text).unwrap();
    let pairs = sessions.value();
    assert_eq!(pairs.len(), 2);
    assert_eq!(
        pairs[0],
        (
            "work".to_owned(),
            SessionStats {
                window_count: 3,
                attached: false
            }
        )
    );
    assert_eq!(
        pairs[1],
        (
            "play".to_owned(),
            SessionStats {
                window_count: 2,
                attached: true
            }
        )
    );
}

#[test]
fn attached_iff_the_word_appears() {
    let (name, stats) = parse_line("a: 1 windows (attached)").unwrap();
    assert_eq!(name, "a");
    assert!(stats.attached);

    let (_, stats) = parse_line("a: 1 windows (created)").unwrap();
    assert!(!stats.attached);
}

#[test]
fn empty_listing_parses_to_nothing() {
    let sessions = parse_sessions("").unwrap();
    assert_eq!(sessions.value().len(), 0);
}

#[test]
fn a_repeated_name_keeps_the_later_line() {
    let text = "dup: 1 windows (x)\ndup: 7 windows (y)\n";
    let sessions = parse_sessions(text).unwrap();
    let pairs = sessions.value();
    assert_eq!(pairs.len(), 1);
    assert_eq!(pairs[0].0, "dup");
    assert_eq!(pairs[0].1.window_count, 7);
}

#[test]
fn line_without_separator_fails_the_whole_listing() {
    let text = "good: 1 windows (x)\nbad line\n";
    let err = parse_sessions(text).unwrap_err();
    assert_eq!(
        err,
        TmsError::Parse {
            line: "bad line".to_owned()
        }
    );
}

#[test]
fn non_numeric_window_count_fails() {
    let err = parse_line("a: many windows (x)").unwrap_err();
    assert_eq!(
        err,
        TmsError::Parse {
            line: "a: many windows (x)".to_owned()
        }
    );
}

#[test]
fn oversized_window_count_fails() {
    assert!(parse_line("a: 256 windows (x)").is_err());
    let (_, stats) = parse_line("a: 255 windows (x)").unwrap();
    assert_eq!(stats.window_count, 255);
}

#[test]
fn name_may_hold_spaces_and_colons() {
    let (name, stats) = parse_line("my proj: 2 windows (z)").unwrap();
    assert_eq!(name, "my proj");
    assert_eq!(stats.window_count, 2);
}
