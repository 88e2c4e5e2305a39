use url_memories::entry::{AnimeEntry, EntryError};
use url_memories::memories::Memories;

fn lines(ls: &[&str]) -> Vec<String> {
    ls.iter().map(|s| s.to_string()).collect()
}

#[test]
fn load_skips_header_and_bad_lines() {
    let mut m = Memories::new();
    m.load_lines(&lines(&[
        "category,title,url_template,watched,timestamp,note",
        "NA,A,https://a/{episode},1-2,10,",
        "broken line",
        "NA,B,https://b/{episode},3,20,fine",
    ]));
    assert_eq!(m.entries.len(), 2);
    assert_eq!(m.get("A").unwrap().watched, "1-2");
    assert_eq!(m.get("B").unwrap().get_note(), "fine");
    assert!(m.get("C").is_none());
}

#[test]
fn load_keeps_last_line_of_a_title() {
    let mut m = Memories::new();
    m.load_lines(&lines(&[
        "header",
        "NA,A,https://a/{episode},1,10,",
        "NA,A,https://a/{episode},1-4,30,",
    ]));
    assert_eq!(m.entries.len(), 1);
    assert_eq!(m.get("A").unwrap().watched, "1-4");
}

#[test]
fn load_of_nothing_changes_nothing() {
    let mut m = Memories::new();
    m.load_lines(&Vec::new());
    assert_eq!(m.entries.len(), 0);
    m.load_lines(&lines(&["NA,A,https://a/{episode},1,10,"]));
    assert_eq!(m.entries.len(), 0);
}

#[test]
fn save_writes_header_then_entries() {
    let mut m = Memories::new();
    assert_eq!(m.add_new("A", "https://a/{episode}", "1", 10), Ok(true));
    assert_eq!(m.add_new("B", "https://b/{episode}", "2-3", 20), Ok(true));
    assert_eq!(
        m.save_lines(),
        lines(&[
            "category,title,url_template,watched,timestamp,note",
            "NA,A,https://a/{episode},1,10,",
            "NA,B,https://b/{episode},2-3,20,",
        ])
    );
}

#[test]
fn save_then_load_round_trip() {
    let mut m = Memories::new();
    m.add_new("A", "https://a/{episode}", "1", 10).unwrap();
    m.update_entry("A", "1-2", "half, done", 11);
    let mut n = Memories::new();
    n.load_lines(&m.save_lines());
    assert_eq!(n.save_lines(), m.save_lines());
}

#[test]
fn add_new_needs_all_three() {
    let mut m = Memories::new();
    assert_eq!(m.add_new("", "https://a/{episode}", "1", 10), Ok(false));
    assert_eq!(m.add_new("A", "", "1", 10), Ok(false));
    assert_eq!(m.add_new("A", "https://a/{episode}", "", 10), Ok(false));
    assert_eq!(m.entries.len(), 0);
}

#[test]
fn add_new_refuses_bad_template() {
    let mut m = Memories::new();
    assert_eq!(m.add_new("A", "https://a/{episode", "1", 10), Err(EntryError::BadTemplate));
    assert_eq!(m.entries.len(), 0);
}

#[test]
fn add_new_replaces_same_title() {
    let mut m = Memories::new();
    m.add_new("A", "https://a/{episode}", "1", 10).unwrap();
    m.add_new("A", "https://a2/{episode}", "5", 12).unwrap();
    assert_eq!(m.entries.len(), 1);
    assert_eq!(m.get("A").unwrap().url_template, "https://a2/{episode}");
}

#[test]
fn update_entry_of_missing_title() {
    let mut m = Memories::new();
    assert!(!m.update_entry("A", "1", "", 1));
    m.add_new("A", "https://a/{episode}", "1", 10).unwrap();
    assert!(m.update_entry("A", "1-3", "note", 50));
    let e = m.get("A").unwrap();
    assert_eq!((e.watched.as_str(), e.get_note(), e.timestamp), ("1-3", "note", 50));
}

#[test]
fn insert_and_position() {
    let mut m = Memories::new();
    m.insert(AnimeEntry::from_str("NA,X,https://x/{episode},1,1,").unwrap());
    m.insert(AnimeEntry::from_str("NA,Y,https://y/{episode},1,1,").unwrap());
    assert_eq!(m.position("Y"), Some(1));
    assert_eq!(m.position("Z"), None);
}

#[test]
fn titles_newest_first() {
    let mut m = Memories::new();
    m.add_new("Old", "https://o/{episode}", "1", 10).unwrap();
    m.add_new("New", "https://n/{episode}", "1", 30).unwrap();
    m.add_new("Mid", "https://m/{episode}", "1", 20).unwrap();
    assert_eq!(m.titles_by_recency(), vec!["New".to_string(), "Mid".to_string(), "Old".to_string()]);
    assert_eq!(m.recency_order(), vec![1, 2, 0]);
}

#[test]
fn no_titles_when_empty() {
    let m = Memories::new();
    assert!(m.titles_by_recency().is_empty());
    assert_eq!(m.save_lines().len(), 1);
}
