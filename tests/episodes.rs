use url_memories::episodes::{
    advance, expand, last_watched, try_last_watched, try_watch_next, watch_next, watched_values, Piece,
};

#[test]
fn expands_ranges_and_singles() {
    assert_eq!(watched_values("1-3,5").unwrap(), vec![1, 2, 3, 5]);
    assert_eq!(watched_values("7").unwrap(), vec![7]);
}

#[test]
fn empty_text_names_no_episode() {
    assert_eq!(watched_values("").unwrap(), Vec::<usize>::new());
    assert_eq!(try_last_watched(""), None);
    assert_eq!(try_watch_next(""), None);
}

#[test]
fn malformed_text_is_refused() {
    assert_eq!(watched_values("one"), None);
    assert_eq!(try_last_watched("1-x"), None);
    assert_eq!(try_watch_next("1-2-3-4"), None);
}

#[test]
fn last_of_watched() {
    assert_eq!(last_watched("1-5"), 5);
    assert_eq!(last_watched("1-3,8"), 8);
    assert_eq!(try_last_watched("9,2"), Some(2));
}

#[test]
fn next_extends_a_run() {
    assert_eq!(watch_next("1-5"), (6, "1-6".to_string()));
    assert_eq!(try_watch_next("1-5"), Some((6, "1-6".to_string())));
}

#[test]
fn next_after_a_gap() {
    assert_eq!(watch_next("1-3,5"), (6, "1-3,5-6".to_string()));
    assert_eq!(watch_next("3"), (4, "3-4".to_string()));
}

#[test]
fn next_near_the_limit_is_refused() {
    let max = usize::MAX.to_string();
    assert_eq!(try_watch_next(&max), None);
    assert_eq!(try_watch_next(&format!("1,{},2", max)), None);
}

#[test]
fn advance_appends_successor() {
    assert_eq!(advance(vec![1, 2, 3]), Some((4, vec![1, 2, 3, 4])));
    assert_eq!(advance(vec![]), None);
    assert_eq!(advance(vec![usize::MAX]), None);
}

#[test]
fn expand_steps_and_skips_empty_spans() {
    let pieces = vec![Piece::Span(1, 2, 7), Piece::Single(10), Piece::Span(5, 1, 3), Piece::Span(2, 0, 4)];
    assert_eq!(expand(&pieces), vec![1, 3, 5, 7, 10]);
    assert_eq!(expand(&vec![Piece::Span(usize::MAX - 1, 1, usize::MAX)]), vec![usize::MAX - 1, usize::MAX]);
}
