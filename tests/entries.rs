use url_memories::entry::{AnimeEntry, EntryError};

fn sample() -> AnimeEntry {
    AnimeEntry::from_str("NA,Frieren,https://example.com/frieren/{episode},1-3,1700000000,good, very")
        .unwrap()
}

#[test]
fn reads_all_columns() {
    let e = sample();
    assert_eq!(e.category, "NA");
    assert_eq!(e.title, "Frieren");
    assert_eq!(e.url_template, "https://example.com/frieren/{episode}");
    assert_eq!(e.watched, "1-3");
    assert_eq!(e.timestamp, 1700000000);
    assert_eq!(e.note, "good, very");
}

#[test]
fn note_column_is_optional() {
    let e = AnimeEntry::from_str("NA,Title,https://a/{episode},4,12").unwrap();
    assert_eq!(e.note, "");
    assert_eq!(e.timestamp, 12);
}

#[test]
fn timestamp_accepts_plus_sign() {
    let e = AnimeEntry::from_str("NA,T,https://a/{episode},4,+7,").unwrap();
    assert_eq!(e.timestamp, 7);
}

#[test]
fn too_few_columns_is_refused() {
    assert_eq!(AnimeEntry::from_str("NA,Title,url").unwrap_err(), EntryError::MissingColumns);
    assert_eq!(AnimeEntry::from_str("").unwrap_err(), EntryError::MissingColumns);
}

#[test]
fn bad_timestamp_is_refused() {
    let r = AnimeEntry::from_str("NA,T,https://a/{episode},1,soon,");
    assert_eq!(r.unwrap_err(), EntryError::BadTimestamp);
    let r = AnimeEntry::from_str("NA,T,https://a/{episode},1,18446744073709551616,");
    assert_eq!(r.unwrap_err(), EntryError::BadTimestamp);
    let r = AnimeEntry::from_str("NA,T,https://a/{episode},1,,");
    assert_eq!(r.unwrap_err(), EntryError::BadTimestamp);
}

#[test]
fn largest_timestamp_is_read() {
    let e = AnimeEntry::from_str("NA,T,https://a/{episode},1,18446744073709551615,").unwrap();
    assert_eq!(e.timestamp, u64::MAX);
}

#[test]
fn bad_template_is_refused() {
    let r = AnimeEntry::from_str("NA,T,https://a/{episode,1,5,");
    assert_eq!(r.unwrap_err(), EntryError::BadTemplate);
    let r = AnimeEntry::from_str("NA,T,https://a/\"{episode},1,5,");
    assert_eq!(r.unwrap_err(), EntryError::BadTemplate);
}

#[test]
fn writes_one_line() {
    assert_eq!(
        sample().to_line(),
        "NA,Frieren,https://example.com/frieren/{episode},1-3,1700000000,good, very"
    );
}

#[test]
fn line_round_trip() {
    let e = AnimeEntry::new("Mushishi".to_string(), "https://m/{episode}", "1-2".to_string(), 99)
        .unwrap();
    let back = AnimeEntry::from_str(&e.to_line()).unwrap();
    assert_eq!(back.category, e.category);
    assert_eq!(back.title, e.title);
    assert_eq!(back.url_template, e.url_template);
    assert_eq!(back.watched, e.watched);
    assert_eq!(back.timestamp, e.timestamp);
    assert_eq!(back.note, e.note);
}

#[test]
fn new_entry_defaults() {
    let e = AnimeEntry::new("Title".to_string(), "https://x/{episode}", "1".to_string(), 5).unwrap();
    assert_eq!(e.category, "NA");
    assert_eq!(e.note, "");
    assert_eq!(e.timestamp, 5);
    assert_eq!(e.to_line(), "NA,Title,https://x/{episode},1,5,");
}

#[test]
fn new_entry_refuses_bad_template() {
    let r = AnimeEntry::new("T".to_string(), "https://x/{episode", "1".to_string(), 5);
    assert_eq!(r.unwrap_err(), EntryError::BadTemplate);
}

#[test]
fn update_sets_watched_note_and_time() {
    let mut e = sample();
    e.update("1-4", "next week", 1700000100);
    assert_eq!(e.watched, "1-4");
    assert_eq!(e.get_note(), "next week");
    assert_eq!(e.timestamp, 1700000100);
    assert_eq!(e.title, "Frieren");
}

#[test]
fn url_of_an_episode() {
    let e = sample();
    assert_eq!(e.get_url(5), "https://example.com/frieren/5");
    assert_eq!(e.try_get_url(12).unwrap(), "https://example.com/frieren/12");
}

#[test]
fn clone_entry_keeps_fields() {
    let e = sample();
    let c = e.clone_entry();
    assert_eq!(c.to_line(), e.to_line());
}

#[test]
fn url_needs_a_plain_template() {
    let e = AnimeEntry::from_str("NA,T,https://x/{%Y}/{episode},1,5,").unwrap();
    assert_eq!(e.try_get_url(3), None);
    let e = AnimeEntry::from_str("NA,T,https://x/{episode:f}?a=b,1,5,").unwrap();
    assert_eq!(e.try_get_url(3), None);
}

#[test]
fn url_keeps_text_outside_braces() {
    let e = AnimeEntry::from_str("NA,T,https://x/watch?v=ab&ep={episode},1,5,").unwrap();
    assert_eq!(e.try_get_url(7).unwrap(), "https://x/watch?v=ab&ep=7");
}

#[test]
fn quotes_outside_braces_are_accepted() {
    let e = AnimeEntry::from_str("NA,T,https://x/a\"b\"c/{episode},1,5,").unwrap();
    assert_eq!(e.url_template, "https://x/a\"b\"c/{episode}");
    let r = AnimeEntry::from_str("NA,T,https://x/{\"?\"}/{episode},1,5,");
    assert_eq!(r.unwrap_err(), EntryError::BadTemplate);
}

#[test]
fn nested_brace_template_is_not_rendered() {
    let e = AnimeEntry::from_str("NA,T,https://x/{a{b}?%Q},1,5,").unwrap();
    assert_eq!(e.try_get_url(1), None);
    let mut e = AnimeEntry::from_str("NA,T,https://x/{episode},1,5,").unwrap();
    e.url_template = "https://x/{a?%Q}".to_string();
    assert_eq!(e.try_get_url(1), None);
}

#[test]
fn template_without_placeholder_renders_as_itself() {
    let e = AnimeEntry::from_str("NA,T,https://x.org/index,1,5,").unwrap();
    assert_eq!(e.try_get_url(1).unwrap(), "https://x.org/index");
    assert_eq!(e.try_get_url(2).unwrap(), "https://x.org/index");
}

#[test]
fn url_example_twelve() {
    let e = AnimeEntry::from_str("NA,Foo,https://x.org/ep{episode},1,1").unwrap();
    assert_eq!(e.get_url(12), "https://x.org/ep12");
}

#[test]
fn other_variable_does_not_render() {
    let e = AnimeEntry::from_str("NA,T,https://x/{season}/{episode},1,5,").unwrap();
    assert_eq!(e.try_get_url(1), None);
}

#[test]
fn quoted_default_in_braces_is_accepted() {
    let e = AnimeEntry::from_str("NA,T,https://x/{episode?\"1\"},1,5,").unwrap();
    assert_eq!(e.try_get_url(4).unwrap(), "https://x/4");
    let mut m = url_memories::memories::Memories::new();
    assert_eq!(m.add_new("T", "https://x/{season?\"1\"}/{episode}", "1", 3), Ok(true));
    assert_eq!(m.get("T").unwrap().try_get_url(2).unwrap(), "https://x/1/2");
}

#[test]
fn time_and_transformer_parts_are_not_rendered() {
    let e = AnimeEntry::from_str("NA,T,https://x/{ep?%Y},1,5,").unwrap();
    assert_eq!(e.try_get_url(4), None);
    let e = AnimeEntry::from_str("NA,T,https://x/{a{b}:f(2)},1,5,").unwrap();
    assert_eq!(e.try_get_url(4), None);
}
