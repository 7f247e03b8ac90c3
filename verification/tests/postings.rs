use phrase_index::postings::{adjacent_in, append_entries, retain_adjacent, Entry};

#[test]
fn adjacent_entry_is_seen() {
    let list: Vec<Entry> = vec![(0, 1), (0, 4), (2, 3)];
    assert!(adjacent_in(&list, (0, 0), 1));
    assert!(adjacent_in(&list, (0, 1), 3));
    assert!(adjacent_in(&list, (2, 0), 3));
    assert!(adjacent_in(&list, (2, 3), 0));
    assert!(!adjacent_in(&list, (0, 0), 2));
    assert!(!adjacent_in(&list, (1, 0), 1));
    assert!(!adjacent_in(&list, (2, 1), 3));
}

#[test]
fn entry_before_is_not_adjacent() {
    let list: Vec<Entry> = vec![(0, 1)];
    assert!(!adjacent_in(&list, (0, 2), 1));
    assert!(!adjacent_in(&list, (0, 2), usize::MAX));
    assert!(!adjacent_in(&list, (0, usize::MAX), 2));
    assert!(!adjacent_in(&list, (0, 3), usize::MAX - 1));
}

#[test]
fn adjacent_at_the_edge_of_the_range() {
    let list: Vec<Entry> = vec![(usize::MAX, usize::MAX)];
    assert!(adjacent_in(&list, (usize::MAX, 0), usize::MAX));
    assert!(adjacent_in(&list, (usize::MAX, usize::MAX - 1), 1));
    assert!(!adjacent_in(&list, (usize::MAX, 1), usize::MAX));
}

#[test]
fn nothing_is_adjacent_in_an_empty_list() {
    let list: Vec<Entry> = vec![];
    assert!(!adjacent_in(&list, (0, 0), 0));
    assert!(!adjacent_in(&list, (0, 0), 1));
}

#[test]
fn retain_keeps_continued_entries_in_order() {
    let list: Vec<Entry> = vec![(0, 2), (1, 1), (1, 5), (3, 0)];
    let mut matches: Vec<Entry> = vec![(0, 1), (0, 0), (1, 0), (1, 4), (2, 0), (1, 4), (3, 0)];
    retain_adjacent(&mut matches, &list, 1);
    assert_eq!(matches, vec![(0, 1), (1, 0), (1, 4), (1, 4)]);
}

#[test]
fn retain_with_empty_list_drops_all() {
    let list: Vec<Entry> = vec![];
    let mut matches: Vec<Entry> = vec![(0, 1), (0, 0)];
    retain_adjacent(&mut matches, &list, 1);
    assert_eq!(matches, vec![]);
}

#[test]
fn retain_on_no_matches_is_empty() {
    let list: Vec<Entry> = vec![(0, 1)];
    let mut matches: Vec<Entry> = vec![];
    retain_adjacent(&mut matches, &list, 1);
    assert_eq!(matches, vec![]);
}

#[test]
fn retain_may_keep_all() {
    let list: Vec<Entry> = vec![(0, 2), (0, 3), (1, 2)];
    let mut matches: Vec<Entry> = vec![(0, 0), (0, 1), (1, 0)];
    retain_adjacent(&mut matches, &list, 2);
    assert_eq!(matches, vec![(0, 0), (0, 1), (1, 0)]);
}

#[test]
fn append_puts_entries_behind() {
    let list: Vec<Entry> = vec![(1, 1), (0, 0)];
    let mut matches: Vec<Entry> = vec![(5, 5)];
    append_entries(&mut matches, &list);
    assert_eq!(matches, vec![(5, 5), (1, 1), (0, 0)]);
    append_entries(&mut matches, &Vec::new());
    assert_eq!(matches, vec![(5, 5), (1, 1), (0, 0)]);
    let mut fresh: Vec<Entry> = Vec::new();
    append_entries(&mut fresh, &list);
    assert_eq!(fresh, list);
}
