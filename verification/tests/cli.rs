use clip_mesh::cli::{preview_line, Cli, Commands};

#[test]
fn preview_keeps_short_content() {
    assert_eq!(preview_line("short text"), "short text");
    assert_eq!(preview_line(""), "");
}

#[test]
fn preview_truncates_at_fifty_characters() {
    let long = "abcdefghij".repeat(6);
    let shown = preview_line(&long);
    assert_eq!(shown.chars().count(), 53);
    assert!(shown.ends_with("..."));
    assert!(shown.starts_with("abcdefghijabcdefghij"));
    // exactly fifty characters are kept untouched
    let exactly_fifty = "x".repeat(50);
    assert_eq!(preview_line(&exactly_fifty), exactly_fifty);
}

#[test]
fn preview_collapses_newlines() {
    assert_eq!(preview_line("a\nb\nc"), "a b c");
    let long_with_newlines = format!("line one\nline two\n{}", "z".repeat(60));
    let shown = preview_line(&long_with_newlines);
    assert!(!shown[..50].contains('\n'));
    assert!(shown.ends_with("..."));
}

#[test]
fn commands_carry_their_arguments() {
    let cli = Cli { command: Some(Commands::List { limit: 10 }) };
    match cli.command {
        Some(Commands::List { limit }) => assert_eq!(limit, 10),
        _ => panic!("expected the list command"),
    }
    let search = Commands::Search { query: "abc".to_string() };
    match search {
        Commands::Search { query } => assert_eq!(query, "abc"),
        _ => panic!("expected the search command"),
    }
    let show = Commands::Show { id: "some-id".to_string() };
    match show {
        Commands::Show { id } => assert_eq!(id, "some-id"),
        _ => panic!("expected the show command"),
    }
    assert!(matches!(Commands::Monitor, Commands::Monitor));
}

#[test]
fn preview_counts_characters_not_bytes() {
    let long = "é".repeat(60);
    let shown = preview_line(&long);
    assert_eq!(shown.chars().count(), 53);
    assert!(shown.ends_with("..."));
    assert!(shown.starts_with("ééééé"));
}
