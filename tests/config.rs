use sojas_api::config::parse_env;

fn pairs(text: &str) -> Vec<(String, String)> {
    parse_env(text)
}

fn p(k: &str, v: &str) -> (String, String) {
    (k.to_string(), v.to_string())
}

#[test]
fn reads_lines_up_to_empty_line() {
    assert_eq!(pairs("A=1\nDATABASE_URL=mysql://u@h/db\n\nC=3"), vec![p("A", "1"), p("DATABASE_URL", "mysql://u@h/db")]);
}

#[test]
fn last_line_without_newline_counts() {
    assert_eq!(pairs("A=1\nB=2"), vec![p("A", "1"), p("B", "2")]);
}

#[test]
fn value_stops_at_second_equals_sign() {
    assert_eq!(pairs("TOKEN=ab=cd\n"), vec![p("TOKEN", "ab")]);
}

#[test]
fn empty_text_or_empty_key_gives_nothing() {
    assert!(pairs("").is_empty());
    assert!(pairs("=x\nA=1").is_empty());
}

#[test]
fn empty_value_is_kept() {
    assert_eq!(pairs("A=\nB=é"), vec![p("A", ""), p("B", "é")]);
}
