use text_adventure::command::{parse_command, parse_words, Command};
use text_adventure::text::{contains_text, name_contains, text_eq};

fn s(x: &str) -> String {
    x.to_string()
}

#[test]
fn directions_and_aliases() {
    assert!(matches!(parse_command("n"), Command::Go(d) if d == "n"));
    assert!(matches!(parse_command("NORTH"), Command::Go(d) if d == "n"));
    assert!(matches!(parse_command("south"), Command::Go(d) if d == "s"));
    assert!(matches!(parse_command("E"), Command::Go(d) if d == "e"));
    assert!(matches!(parse_command("west"), Command::Go(d) if d == "w"));
    assert!(matches!(parse_command("i"), Command::Inventory));
    assert!(matches!(parse_command("Inventory"), Command::Inventory));
    assert!(matches!(parse_command("l"), Command::Look));
    assert!(matches!(parse_command("look"), Command::Look));
    assert!(matches!(parse_command("help"), Command::Help));
    assert!(matches!(parse_command("q"), Command::Quit));
    assert!(matches!(parse_command("Quit"), Command::Quit));
}

#[test]
fn arguments_are_rejoined() {
    assert!(matches!(parse_command("  take   brass    key "), Command::Take(a) if a == "brass key"));
    assert!(matches!(parse_command("GRAB lamp"), Command::Take(a) if a == "lamp"));
    assert!(matches!(parse_command("use Brass Key"), Command::Use(a) if a == "Brass Key"));
    assert!(matches!(parse_command("take"), Command::Take(a) if a.is_empty()));
}

#[test]
fn empty_and_unknown_lines() {
    assert!(matches!(parse_command("   "), Command::Empty));
    assert!(matches!(parse_command(""), Command::Empty));
    assert!(matches!(parse_command("Dance wildly"), Command::Unknown(v) if v == "Dance"));
}

#[test]
fn parse_from_words() {
    let words = vec![s("USE"), s("old"), s("map")];
    assert!(matches!(parse_words(&words), Command::Use(a) if a == "old map"));
    assert!(matches!(parse_words(&vec![]), Command::Empty));
}

#[test]
fn text_matching() {
    assert!(text_eq("abc", "abc"));
    assert!(!text_eq("abc", "abd"));
    assert!(!text_eq("abc", "ab"));
    assert!(contains_text("brass key", "ss k"));
    assert!(contains_text("brass key", ""));
    assert!(!contains_text("brass", "brass key"));
    assert!(!contains_text("Brass", "brass"));
    assert!(name_contains("Brass Key", "brass"));
    assert!(name_contains("brass key", "KEY"));
    assert!(!name_contains("Brass Key", "iron"));
}
