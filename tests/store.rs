use todo::codec::{parse, serialize, DecodeError};
use todo::command::{apply, label_of, seed_text, Command};
use todo::list::TodoList;
use todo::render::{decimal_text, render, render_line};

fn s(x: &str) -> String {
    x.to_string()
}

fn sorted_entries(list: &TodoList) -> Vec<(String, bool)> {
    let mut v = list.entries();
    v.sort();
    v
}

#[test]
fn bootstrap_seeds_placeholder() {
    let seed = seed_text("").expect("an empty file is seeded");
    assert_eq!(seed, "placeholder:false\n");
    let list = parse(&seed).unwrap();
    assert_eq!(list.len(), 1);
    assert_eq!(list.get(&s("placeholder")), Some(false));
}

#[test]
fn existing_text_is_not_seeded() {
    assert_eq!(seed_text("a:true\n"), None);
}

#[test]
fn unknown_flag_is_rejected() {
    assert_eq!(parse("foo:maybe").unwrap_err(), DecodeError::MalformedLine);
    assert_eq!(parse("a:true\nfoo:maybe\nb:false\n").unwrap_err(), DecodeError::MalformedLine);
}

#[test]
fn line_without_separator_is_rejected() {
    assert!(parse("a:true\nfoo\n").is_err());
}

#[test]
fn split_happens_at_first_colon() {
    assert!(parse("a:b:true\n").is_err());
}

#[test]
fn flag_tokens_are_exact() {
    assert!(parse("a:True\n").is_err());
    assert!(parse("a:true \n").is_err());
    assert!(parse("a:\n").is_err());
}

#[test]
fn empty_text_is_empty_list() {
    assert_eq!(parse("").unwrap().len(), 0);
}

#[test]
fn empty_lines_are_skipped() {
    let list = parse("\n\na:true\n\nb:false").unwrap();
    assert_eq!(list.len(), 2);
    assert_eq!(list.get(&s("a")), Some(true));
    assert_eq!(list.get(&s("b")), Some(false));
}

#[test]
fn last_duplicate_wins() {
    let list = parse("a:true\nb:true\na:false\n").unwrap();
    assert_eq!(list.len(), 2);
    assert_eq!(list.get(&s("a")), Some(false));
}

#[test]
fn empty_label_is_accepted() {
    let list = parse(":true\n").unwrap();
    assert_eq!(list.get(&s("")), Some(true));
}

#[test]
fn serialize_writes_one_line_per_item() {
    let mut list = TodoList::new();
    list.add(s("walk dog"), true);
    assert_eq!(serialize(&list), "walk dog:true\n");
    list.add(s("feed cat"), false);
    let text = serialize(&list);
    assert_eq!(text.lines().count(), 2);
    assert!(text.contains("walk dog:true\n"));
    assert!(text.contains("feed cat:false\n"));
}

#[test]
fn round_trip_keeps_mapping() {
    let mut list = TodoList::new();
    list.add(s("x"), false);
    list.add(s("y y"), true);
    list.add(s("caf\u{e9}"), true);
    list.add(s(""), false);
    let back = parse(&serialize(&list)).unwrap();
    assert_eq!(sorted_entries(&back), sorted_entries(&list));
}

#[test]
fn check_twice_equals_once() {
    let mut once = parse("a:false\nb:true\n").unwrap();
    once.check(s("a"));
    let mut twice = parse("a:false\nb:true\n").unwrap();
    twice.check(s("a"));
    twice.check(s("a"));
    assert_eq!(sorted_entries(&once), sorted_entries(&twice));
}

#[test]
fn check_creates_missing_item() {
    let mut list = TodoList::new();
    list.check(s("new"));
    assert_eq!(list.get(&s("new")), Some(true));
}

#[test]
fn add_after_check_resets_flag() {
    let mut list = TodoList::new();
    list.check(s("a"));
    list.add(s("a"), false);
    assert_eq!(list.len(), 1);
    assert_eq!(list.get(&s("a")), Some(false));
}

#[test]
fn delete_present_removes_one() {
    let mut list = parse("a:false\nb:true\nc:false\n").unwrap();
    list.delete(&s("b"));
    assert_eq!(list.len(), 2);
    assert_eq!(list.get(&s("b")), None);
    assert_eq!(list.get(&s("a")), Some(false));
    assert_eq!(list.get(&s("c")), Some(false));
}

#[test]
fn delete_absent_changes_nothing() {
    let mut list = parse("a:false\n").unwrap();
    list.delete(&s("zzz"));
    assert_eq!(list.len(), 1);
    assert_eq!(list.get(&s("a")), Some(false));
}

#[test]
fn end_to_end_session() {
    let seed = seed_text("").unwrap();
    let mut list = parse(&seed).unwrap();
    assert!(apply(&mut list, Command::Add(s("buy milk"))));
    assert_eq!(
        sorted_entries(&list),
        vec![(s("buy milk"), false), (s("placeholder"), false)]
    );
    assert!(apply(&mut list, Command::Check(s("buy milk"))));
    assert_eq!(
        sorted_entries(&list),
        vec![(s("buy milk"), true), (s("placeholder"), false)]
    );
    assert!(apply(&mut list, Command::Delete(s("placeholder"))));
    assert_eq!(sorted_entries(&list), vec![(s("buy milk"), true)]);
    let text = serialize(&list);
    assert_eq!(text, "buy milk:true\n");
    let reloaded = parse(&text).unwrap();
    assert_eq!(sorted_entries(&reloaded), vec![(s("buy milk"), true)]);
}

#[test]
fn list_command_needs_no_save() {
    let mut list = parse("a:true\n").unwrap();
    assert!(!apply(&mut list, Command::List));
    assert_eq!(sorted_entries(&list), vec![(s("a"), true)]);
}

#[test]
fn words_are_joined_with_spaces() {
    assert_eq!(label_of(&vec![s("buy"), s("milk"), s("today")]), "buy milk today");
    assert_eq!(label_of(&vec![s("one")]), "one");
    assert_eq!(label_of(&vec![]), "");
}

#[test]
fn decimal_numbers() {
    assert_eq!(decimal_text(0), "0");
    assert_eq!(decimal_text(7), "7");
    assert_eq!(decimal_text(10), "10");
    assert_eq!(decimal_text(1203), "1203");
    assert_eq!(decimal_text(usize::MAX), usize::MAX.to_string());
}

#[test]
fn lines_show_number_label_and_box() {
    assert_eq!(render_line(12, &s("buy milk"), true), "12. buy milk \u{2611}");
    assert_eq!(render_line(1, &s("x"), false), "1. x \u{2610}");
}

#[test]
fn listing_is_numbered_from_one() {
    let items = vec![(s("a"), false), (s("b"), true)];
    assert_eq!(render(&items), vec![s("1. a \u{2610}"), s("2. b \u{2611}")]);
    assert!(render(&vec![]).is_empty());
}
