use bm::bookmark::{Bookmark, Config};
use bm::command::{not_found_message, Cli, Command};
use bm::listing::lex_le_exec;

fn store(pairs: &[(&str, &str)]) -> Config {
    let mut c = Config::new();
    for (n, u) in pairs {
        c.add(n.to_string(), u.to_string());
    }
    c
}

fn pairs(c: &Config) -> Vec<(String, String)> {
    c.bookmarks.iter().map(|b| (b.name.clone(), b.url.clone())).collect()
}

fn own(v: &[(&str, &str)]) -> Vec<(String, String)> {
    v.iter().map(|(n, u)| (n.to_string(), u.to_string())).collect()
}

#[test]
fn add_appends_in_insertion_order() {
    let c = store(&[("zeta", "u1"), ("alpha", "u2")]);
    assert_eq!(pairs(&c), own(&[("zeta", "u1"), ("alpha", "u2")]));
    assert_eq!(c.len(), 2);
}

#[test]
fn add_allows_empty_and_duplicate_names() {
    let c = store(&[("", ""), ("a", "u1"), ("a", "u1")]);
    assert_eq!(c.len(), 3);
}

#[test]
fn list_is_sorted_whatever_the_insertion_order() {
    let c1 = store(&[("c", "u3"), ("a", "u1"), ("b", "u2")]);
    let c2 = store(&[("b", "u2"), ("c", "u3"), ("a", "u1")]);
    let want = vec!["a".to_string(), "b".to_string(), "c".to_string()];
    assert_eq!(c1.sorted_names(), want);
    assert_eq!(c2.sorted_names(), want);
    // the stored order is not touched
    assert_eq!(pairs(&c1), own(&[("c", "u3"), ("a", "u1"), ("b", "u2")]));
}

#[test]
fn list_keeps_duplicates_and_orders_prefixes_first() {
    let c = store(&[("ab", "u1"), ("a", "u2"), ("B", "u3"), ("ab", "u4"), ("é", "u5")]);
    let want: Vec<String> = ["B", "a", "ab", "ab", "é"].iter().map(|s| s.to_string()).collect();
    assert_eq!(c.sorted_names(), want);
}

#[test]
fn list_of_empty_store_has_no_lines() {
    let mut c = Config::new();
    let out = Cli { command: Command::List }.run(&mut c);
    assert!(out.lines.is_empty());
    assert!(!out.save);
    assert!(out.launch.is_none());
}

#[test]
fn run_list_prints_sorted_names_and_keeps_order() {
    let mut c = store(&[("work", "u1"), ("mail", "u2")]);
    let out = Cli { command: Command::List }.run(&mut c);
    assert_eq!(out.lines, vec!["mail".to_string(), "work".to_string()]);
    assert!(!out.save);
    assert_eq!(pairs(&c), own(&[("work", "u1"), ("mail", "u2")]));
}

#[test]
fn remove_takes_out_first_match_only() {
    let mut c = store(&[("a", "u1"), ("b", "u2"), ("a", "u3")]);
    assert!(c.remove(&"a".to_string()));
    assert_eq!(pairs(&c), own(&[("b", "u2"), ("a", "u3")]));
}

#[test]
fn remove_of_absent_name_changes_nothing() {
    let mut c = store(&[("a", "u1"), ("b", "u2")]);
    assert!(!c.remove(&"zzz".to_string()));
    assert_eq!(pairs(&c), own(&[("a", "u1"), ("b", "u2")]));
    let out = Cli { command: Command::Remove { name: "zzz".to_string() } }.run(&mut c);
    assert!(!out.save);
    assert!(out.lines.is_empty());
    assert_eq!(pairs(&c), own(&[("a", "u1"), ("b", "u2")]));
}

#[test]
fn run_remove_present_saves() {
    let mut c = store(&[("a", "u1"), ("b", "u2"), ("a", "u3")]);
    let out = Cli { command: Command::Remove { name: "a".to_string() } }.run(&mut c);
    assert!(out.save);
    assert_eq!(pairs(&c), own(&[("b", "u2"), ("a", "u3")]));
}

#[test]
fn run_add_appends_and_saves() {
    let mut c = store(&[("a", "u1")]);
    let out = Cli { command: Command::Add { name: "b".to_string(), url: "u2".to_string() } }
        .run(&mut c);
    assert!(out.save);
    assert!(out.lines.is_empty());
    assert!(out.launch.is_none());
    assert_eq!(pairs(&c), own(&[("a", "u1"), ("b", "u2")]));
}

#[test]
fn open_missing_prints_message_only() {
    let mut c = store(&[("a", "u1")]);
    let out = Cli { command: Command::Open { name: "missing".to_string() } }.run(&mut c);
    assert_eq!(out.lines, vec!["could not find \"missing\"".to_string()]);
    assert!(out.launch.is_none());
    assert!(!out.save);
    assert_eq!(pairs(&c), own(&[("a", "u1")]));
}

#[test]
fn open_present_launches_first_url() {
    let mut c = store(&[("a", "u1"), ("b", "u2"), ("b", "u3")]);
    let out = Cli { command: Command::Open { name: "b".to_string() } }.run(&mut c);
    assert_eq!(out.launch, Some("u2".to_string()));
    assert!(out.lines.is_empty());
    assert!(!out.save);
}

#[test]
fn not_found_message_quotes_name() {
    assert_eq!(not_found_message(&"x y".to_string()), "could not find \"x y\"");
}

#[test]
fn find_and_url_of_use_first_match() {
    let c = store(&[("a", "u1"), ("b", "u2"), ("b", "u3")]);
    assert_eq!(c.find(&"b".to_string()), Some(1));
    assert_eq!(c.find(&"c".to_string()), None);
    assert_eq!(c.url_of(&"b".to_string()), Some("u2".to_string()));
    assert_eq!(c.url_of(&"c".to_string()), None);
}

#[test]
fn loading_absent_file_gives_empty_store() {
    let c = Config::loaded(None);
    assert_eq!(c.len(), 0);
}

#[test]
fn loading_present_file_keeps_its_bookmarks() {
    let read = Config { bookmarks: vec![Bookmark::new("a".to_string(), "u1".to_string())] };
    let c = Config::loaded(Some(read));
    assert_eq!(pairs(&c), own(&[("a", "u1")]));
}

#[test]
fn lexicographic_comparison() {
    let s = |x: &str| x.to_string();
    assert!(lex_le_exec(&s(""), &s("a")));
    assert!(!lex_le_exec(&s("a"), &s("")));
    assert!(lex_le_exec(&s("ab"), &s("ab")));
    assert!(lex_le_exec(&s("ab"), &s("abc")));
    assert!(!lex_le_exec(&s("b"), &s("abc")));
    assert!(lex_le_exec(&s("Z"), &s("a")));
    assert!(lex_le_exec(&s("z"), &s("é")));
}
