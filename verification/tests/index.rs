use phrase_index::index::{Entry, Index};

fn test<T>(index: &Index<T>, q: &str, expected: Vec<Entry>) {
    let mut matches = Vec::new();
    index.find(q, &mut matches);
    assert_eq!(matches, expected);
}

fn three_documents() -> Index<&'static str> {
    let mut index = Index::<&str>::new();
    index.add("one two three four", "d1");
    index.add("two four six eight", "d2");
    index.add("three six nine twelve", "d3");
    index
}

#[test]
fn single_word() {
    let mut index = Index::<&str>::new();
    let d1 = index.add("one two three four", "d1");
    let d2 = index.add("two four six eight", "d2");
    let d3 = index.add("three six nine twelve", "d3");

    test(&index, "none", vec![]);

    test(&index, "two", vec![(d1, 1), (d2, 0)]);
    test(&index, "eight", vec![(d2, 3)]);
    test(&index, "six", vec![(d2, 2), (d3, 1)]);
}

#[test]
fn multi_word() {
    let mut index = Index::<&str>::new();
    let d1 = index.add("one two three four", "d1");
    let d2 = index.add("two four six eight", "d2");
    let d3 = index.add("three six nine twelve", "d3");

    test(&index, "two three", vec![(d1, 1)]);
    test(&index, "two four", vec![(d2, 0)]);
    test(&index, "six nine twelve", vec![(d3, 1)]);
}

#[test]
fn ids_count_up_from_zero() {
    let mut index = Index::<u32>::new();
    assert_eq!(index.documents().len(), 0);
    for i in 0..20usize {
        let id = index.add("some text", i as u32);
        assert_eq!(id, i);
        assert_eq!(index.documents().len(), i + 1);
    }
}

#[test]
fn documents_hold_the_payloads_by_id() {
    let mut index = Index::<String>::new();
    let a = index.add("alpha", String::from("first"));
    let b = index.add("", String::from("second"));
    let c = index.add("gamma", String::from("third"));
    assert_eq!((a, b, c), (0, 1, 2));
    assert_eq!(index.documents()[a], "first");
    assert_eq!(index.documents()[b], "second");
    assert_eq!(index.documents()[c], "third");
    assert_eq!(index.documents().len(), 3);
}

#[test]
fn every_word_is_found_where_it_stands() {
    let texts = ["the quick brown fox", "  jumps over\tthe lazy dog ", "", "fox fox the fox"];
    let mut index = Index::<usize>::new();
    for (i, text) in texts.iter().enumerate() {
        assert_eq!(index.add(text, i), i);
    }
    for (id, text) in texts.iter().enumerate() {
        for (pos, word) in text.split_whitespace().enumerate() {
            let mut matches = Vec::new();
            assert_eq!(index.find(word, &mut matches), Some(()));
            assert!(matches.contains(&(id, pos)), "{} at {:?}", word, (id, pos));
        }
    }
}

#[test]
fn empty_document_has_no_postings() {
    let mut index = Index::<&str>::new();
    assert_eq!(index.add("", "empty"), 0);
    assert_eq!(index.add(" \t\n ", "blank"), 1);
    assert_eq!(index.add("word", "full"), 2);
    test(&index, "word", vec![(2, 0)]);
}

#[test]
fn empty_query_finds_nothing() {
    let index = three_documents();
    let mut matches = Vec::new();
    assert_eq!(index.find("", &mut matches), None);
    assert_eq!(matches, vec![]);
    assert_eq!(index.find("  \t \n", &mut matches), None);
    assert_eq!(matches, vec![]);
}

#[test]
fn empty_index_finds_nothing() {
    let index = Index::<u8>::new();
    let mut matches = Vec::new();
    assert_eq!(index.find("anything", &mut matches), None);
    assert_eq!(matches, vec![]);
    assert_eq!(index.find("", &mut matches), None);
    assert_eq!(matches, vec![]);
}

#[test]
fn absent_word_finds_nothing() {
    let index = three_documents();
    let mut matches = Vec::new();
    assert_eq!(index.find("none", &mut matches), None);
    assert_eq!(matches, vec![]);
    assert_eq!(index.find("Two", &mut matches), None);
    assert_eq!(matches, vec![]);
    assert_eq!(index.find("two,", &mut matches), None);
    assert_eq!(matches, vec![]);
}

#[test]
fn absent_later_word_empties_the_matches() {
    let index = three_documents();
    let mut matches = Vec::new();
    assert_eq!(index.find("two none", &mut matches), None);
    assert_eq!(matches, vec![]);
    assert_eq!(index.find("two three none", &mut matches), None);
    assert_eq!(matches, vec![]);
    assert_eq!(index.find("six none twelve", &mut matches), None);
    assert_eq!(matches, vec![]);
    assert_eq!(index.find("two none three", &mut matches), None);
    assert_eq!(matches, vec![]);
}

#[test]
fn absent_word_is_not_looked_up_once_nothing_is_left() {
    let index = three_documents();
    let mut matches = Vec::new();
    assert_eq!(index.find("two six none", &mut matches), Some(()));
    assert_eq!(matches, vec![]);
    assert_eq!(index.find("one three none none", &mut matches), Some(()));
    assert_eq!(matches, vec![]);
    assert_eq!(index.find("four four", &mut matches), Some(()));
    assert_eq!(matches, vec![]);
}

#[test]
fn absent_later_word_drops_what_was_held() {
    let index = three_documents();
    let mut matches = vec![(0, 0), (4, 4)];
    assert_eq!(index.find("two none", &mut matches), None);
    assert_eq!(matches, vec![]);
    let mut matches = vec![(0, 2)];
    assert_eq!(index.find("six four none", &mut matches), None);
    assert_eq!(matches, vec![]);
    let mut matches = vec![(4, 4)];
    assert_eq!(index.find("six four none", &mut matches), Some(()));
    assert_eq!(matches, vec![]);
}

#[test]
fn first_word_found_gives_some() {
    let index = three_documents();
    let mut matches = Vec::new();
    assert_eq!(index.find("two", &mut matches), Some(()));
    assert_eq!(matches, vec![(0, 1), (1, 0)]);
    let mut matches = Vec::new();
    assert_eq!(index.find("two six", &mut matches), Some(()));
    assert_eq!(matches, vec![]);
}

#[test]
fn same_query_same_matches() {
    let index = three_documents();
    for q in ["two", "six nine", "none", "", "two four six eight", "three"] {
        let mut first = Vec::new();
        let mut second = Vec::new();
        let r1 = index.find(q, &mut first);
        let r2 = index.find(q, &mut second);
        assert_eq!(r1, r2);
        assert_eq!(first, second);
    }
}

#[test]
fn words_apart_do_not_match() {
    let mut index = Index::<&str>::new();
    index.add("two and three", "apart");
    index.add("three two", "reversed");
    index.add("two", "short");
    test(&index, "two three", vec![]);
    index.add("then two three", "adjacent");
    test(&index, "two three", vec![(3, 1)]);
}

#[test]
fn phrase_across_documents_does_not_match() {
    let mut index = Index::<&str>::new();
    index.add("one two", "a");
    index.add("three four", "b");
    test(&index, "two three", vec![]);
    test(&index, "one two", vec![(0, 0)]);
    test(&index, "three four", vec![(1, 0)]);
}

#[test]
fn repeated_words() {
    let mut index = Index::<&str>::new();
    index.add("a a a", "triple");
    index.add("b a a b a", "mixed");
    test(&index, "a", vec![(0, 0), (0, 1), (0, 2), (1, 1), (1, 2), (1, 4)]);
    test(&index, "a a", vec![(0, 0), (0, 1), (1, 1)]);
    test(&index, "a a a", vec![(0, 0)]);
    test(&index, "a a a a", vec![]);
    test(&index, "a b a", vec![(1, 2)]);
    test(&index, "b a", vec![(1, 0), (1, 3)]);
}

#[test]
fn whole_document_as_phrase() {
    let index = three_documents();
    test(&index, "one two three four", vec![(0, 0)]);
    test(&index, "one two three four five", vec![]);
    test(&index, "four", vec![(0, 3), (1, 1)]);
    test(&index, "four six", vec![(1, 1)]);
}

#[test]
fn query_spacing_does_not_matter() {
    let index = three_documents();
    test(&index, "  six \t nine\n\ntwelve  ", vec![(2, 1)]);
    test(&index, "\u{3000}two\u{a0}four\u{2003}", vec![(1, 0)]);
}

#[test]
fn words_are_matched_exactly() {
    let mut index = Index::<u8>::new();
    index.add("Hello, world! hello world", 0);
    test(&index, "hello", vec![(0, 2)]);
    test(&index, "Hello,", vec![(0, 0)]);
    test(&index, "Hello", vec![]);
    test(&index, "world", vec![(0, 3)]);
    test(&index, "world!", vec![(0, 1)]);
    test(&index, "hello world", vec![(0, 2)]);
}

#[test]
fn matches_held_before_are_narrowed_too() {
    let index = three_documents();

    let mut matches = vec![(0, 0)];
    assert_eq!(index.find("two three", &mut matches), Some(()));
    assert_eq!(matches, vec![(0, 1)]);

    let mut matches = vec![(0, 1), (7, 7)];
    assert_eq!(index.find("two three", &mut matches), Some(()));
    assert_eq!(matches, vec![(0, 1), (0, 1)]);

    let mut matches = vec![(5, 5), (0, 0)];
    assert_eq!(index.find("two", &mut matches), Some(()));
    assert_eq!(matches, vec![(5, 5), (0, 0), (0, 1), (1, 0)]);

    let mut matches = vec![(2, usize::MAX), (usize::MAX, 0)];
    assert_eq!(index.find("six nine", &mut matches), Some(()));
    assert_eq!(matches, vec![(2, 1)]);
}

#[test]
fn matches_held_before_stay_without_first_word() {
    let index = three_documents();
    let mut matches = vec![(0, 1), (9, 9)];
    assert_eq!(index.find("none two", &mut matches), None);
    assert_eq!(matches, vec![(0, 1), (9, 9)]);
    assert_eq!(index.find("", &mut matches), None);
    assert_eq!(matches, vec![(0, 1), (9, 9)]);
}

#[test]
fn matches_stand_in_document_order() {
    let mut index = Index::<u8>::new();
    index.add("x y x y x", 0);
    index.add("y x y", 1);
    index.add("x y", 2);
    test(&index, "x y", vec![(0, 0), (0, 2), (1, 1), (2, 0)]);
    test(&index, "y x", vec![(0, 1), (0, 3), (1, 0)]);
    test(&index, "x", vec![(0, 0), (0, 2), (0, 4), (1, 1), (2, 0)]);
}

#[test]
fn adding_later_keeps_earlier_matches() {
    let mut index = Index::<u8>::new();
    index.add("red green", 0);
    test(&index, "green", vec![(0, 1)]);
    index.add("green red green", 1);
    test(&index, "green", vec![(0, 1), (1, 0), (1, 2)]);
    test(&index, "red green", vec![(0, 0), (1, 1)]);
}
