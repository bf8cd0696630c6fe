use project_tomoyo::text::{join, split};

fn strings(list: &[&str]) -> Vec<String> {
    list.iter().map(|s| s.to_string()).collect()
}

#[test]
fn split_parts_at_every_separator() {
    assert_eq!(split("computer regular sala", ' '), strings(&["computer", "regular", "sala"]));
    assert_eq!(split("S1A,S2F", ','), strings(&["S1A", "S2F"]));
    assert_eq!(split("S1A", ','), strings(&["S1A"]));
    assert_eq!(split("S1A,S2F", ' '), strings(&["S1A,S2F"]));
}

#[test]
fn split_keeps_empty_pieces() {
    assert_eq!(split("", ','), strings(&[""]));
    assert_eq!(split(",", ','), strings(&["", ""]));
    assert_eq!(split("a,,b", ','), strings(&["a", "", "b"]));
    assert_eq!(split(",a,", ','), strings(&["", "a", ""]));
}

#[test]
fn split_counts_characters_not_bytes() {
    assert_eq!(split("Čas Šesti ž", ' '), strings(&["Čas", "Šesti", "ž"]));
    assert_eq!(split("aČbČ", 'Č'), strings(&["a", "b", ""]));
}

#[test]
fn join_puts_the_separator_between_items() {
    assert_eq!(join(&strings(&["computer", "regular", "sala"]), " "), "computer regular sala");
    assert_eq!(join(&strings(&["sala"]), " "), "sala");
    assert_eq!(join(&strings(&[]), " "), "");
    assert_eq!(join(&strings(&["", ""]), ","), ",");
    assert_eq!(join(&strings(&["a", "", "b"]), ","), "a,,b");
    assert_eq!(join(&strings(&["a", "b", "c"]), ", "), "a, b, c");
    assert_eq!(join(&strings(&["a", "b"]), ""), "ab");
}

#[test]
fn join_undoes_split() {
    for text in ["", "a", "a b", " a  b ", "masinska-computer regular"] {
        assert_eq!(join(&split(text, ' '), " "), text);
    }
}
