//! Posting lists: where each word occurs, and which occurrences begin a
//! phrase.

use crate::tokens::is_word;
use vstd::prelude::*;
use vstd::seq_lib::*;

verus! {

/// The number of a document: documents are counted from 0 in the order in
/// which they were added.
pub type DocumentId = usize;

/// The place of a word within its document: words are counted from 0.
pub type WordPosition = usize;

/// One occurrence of a word: the document and the position within it.
pub type Entry = (DocumentId, WordPosition);

/// The words of every document, the documents in the order of their ids.
pub type Corpus = Seq<Seq<Seq<char>>>;

/// Every document id and every word position of `texts` is a `usize`.
pub open spec fn fits(texts: Corpus) -> bool {
    &&& texts.len() <= usize::MAX
    &&& forall|d: int| 0 <= d < texts.len() ==> (#[trigger] texts[d]).len() <= usize::MAX
}

/// Every entry of every document of `texts` is a word.
pub open spec fn made_of_words(texts: Corpus) -> bool {
    forall|d: int, p: int|
        0 <= d < texts.len() && 0 <= p < texts[d].len() ==> is_word(#[trigger] texts[d][p])
}

/// The word at position `p` of document `d`, if there is one.
pub open spec fn word_at(texts: Corpus, d: int, p: int) -> Option<Seq<char>> {
    if 0 <= d < texts.len() && 0 <= p < texts[d].len() {
        Some(texts[d][p])
    } else {
        None
    }
}

/// The occurrences of `w` in one document, by rising position.
pub open spec fn doc_postings(doc: Seq<Seq<char>>, id: DocumentId, w: Seq<char>) -> Seq<Entry>
    decreases doc.len(),
{
    if doc.len() == 0 {
        Seq::empty()
    } else {
        let before = doc_postings(doc.drop_last(), id, w);
        if doc.last() == w {
            before.push((id, (doc.len() - 1) as usize))
        } else {
            before
        }
    }
}

/// The occurrences of `w` in all documents: document by document, and within
/// a document by rising position.
pub open spec fn postings(texts: Corpus, w: Seq<char>) -> Seq<Entry>
    decreases texts.len(),
{
    if texts.len() == 0 {
        Seq::empty()
    } else {
        postings(texts.drop_last(), w) + doc_postings(
            texts.last(),
            (texts.len() - 1) as usize,
            w,
        )
    }
}

/// The words of `phrase` after its first stand in the document of `e` right
/// after the position of `e`, one after the other.
pub open spec fn rest_follows(texts: Corpus, e: Entry, phrase: Seq<Seq<char>>) -> bool {
    forall|i: int|
        1 <= i < phrase.len() ==> word_at(texts, e.0 as int, e.1 + i) == Some(#[trigger] phrase[i])
}

/// The whole of `phrase` stands in the document of `e`, beginning at the
/// position of `e`.
pub open spec fn phrase_at(texts: Corpus, e: Entry, phrase: Seq<Seq<char>>) -> bool {
    forall|i: int|
        0 <= i < phrase.len() ==> word_at(texts, e.0 as int, e.1 + i) == Some(#[trigger] phrase[i])
}

/// The test that keeps an entry after which the rest of `phrase` follows.
pub open spec fn follows(texts: Corpus, phrase: Seq<Seq<char>>) -> spec_fn(Entry) -> bool {
    |e: Entry| rest_follows(texts, e, phrase)
}

/// The entries of `candidates` after which the rest of `phrase` follows, in
/// the order in which `candidates` holds them.
pub open spec fn narrowed(texts: Corpus, candidates: Seq<Entry>, phrase: Seq<Seq<char>>) -> Seq<
    Entry,
> {
    candidates.filter(follows(texts, phrase))
}

/// The matches of `phrase`: the occurrences of its first word at which the
/// whole phrase stands, in the order of the first word's postings. A phrase
/// without words matches nowhere.
pub open spec fn phrase_matches(texts: Corpus, phrase: Seq<Seq<char>>) -> Seq<Entry> {
    if phrase.len() == 0 {
        Seq::empty()
    } else {
        narrowed(texts, postings(texts, phrase[0]), phrase)
    }
}

/// The first word of `phrase` exists and occurs in some document.
pub open spec fn first_word_occurs(texts: Corpus, phrase: Seq<Seq<char>>) -> bool {
    phrase.len() > 0 && postings(texts, phrase[0]).len() > 0
}

/// A search for `phrase` among `candidates` has entries left when it comes to
/// the word at place `i` of the phrase, and so has to look that word up.
pub open spec fn reaches(
    texts: Corpus,
    candidates: Seq<Entry>,
    phrase: Seq<Seq<char>>,
    i: int,
) -> bool {
    narrowed(texts, candidates, phrase.take(i)).len() > 0
}

/// Of the words at the places 1 to `n - 1` of `phrase`, each one that a
/// search among `candidates` has to look up occurs in some document.
pub open spec fn later_words_occur(
    texts: Corpus,
    candidates: Seq<Entry>,
    phrase: Seq<Seq<char>>,
    n: int,
) -> bool {
    forall|i: int|
        1 <= i < n && #[trigger] reaches(texts, candidates, phrase, i) ==> postings(
            texts,
            phrase[i],
        ).len() > 0
}

/// Every word that a search for `phrase` looks up occurs in some document.
///
/// The first word is always looked up. A later word is looked up only while
/// entries are left: of those that `held` before and the postings of the
/// first word, narrowed by the words before it.
pub open spec fn lookups_succeed(texts: Corpus, phrase: Seq<Seq<char>>, held: Seq<Entry>) -> bool {
    &&& first_word_occurs(texts, phrase)
    &&& later_words_occur(texts, held + postings(texts, phrase[0]), phrase, phrase.len() as int)
}

/// What a search for `phrase` leaves of the entries `held` before it.
///
/// Where the first word of the phrase occurs, its postings are put behind
/// `held`, and of them all those stay after which the rest of the phrase
/// follows. Where the phrase has no word, or its first word occurs nowhere,
/// `held` stays as it is.
pub open spec fn search(texts: Corpus, phrase: Seq<Seq<char>>, held: Seq<Entry>) -> Seq<Entry> {
    if first_word_occurs(texts, phrase) {
        narrowed(texts, held + postings(texts, phrase[0]), phrase)
    } else {
        held
    }
}

/// `list` holds an entry of the document of `e` that lies exactly `dist`
/// positions after `e`.
pub open spec fn has_adjacent(list: Seq<Entry>, e: Entry, dist: int) -> bool {
    exists|j: int|
        0 <= j < list.len() && (#[trigger] list[j]).0 == e.0 && list[j].1 - e.1 == dist
}

/// The test that keeps an entry which `list` continues at distance `dist`.
pub open spec fn continued_by(list: Seq<Entry>, dist: int) -> spec_fn(Entry) -> bool {
    |e: Entry| has_adjacent(list, e, dist)
}

/// `a` comes before `b`: in an earlier document, or earlier in the same one.
pub open spec fn precedes(a: Entry, b: Entry) -> bool {
    a.0 < b.0 || (a.0 == b.0 && a.1 < b.1)
}

/// Tells whether `list` holds an entry of the document of `e` exactly `dist`
/// positions after it.
pub fn adjacent_in(list: &Vec<Entry>, e: Entry, dist: usize) -> (r: bool)
    ensures
        r == has_adjacent(list@, e, dist as int),
{
    let mut j: usize = 0;
    while j < list.len()
        invariant
            j <= list.len(),
            forall|k: int| 0 <= k < j ==> !(list@[k].0 == e.0 && list@[k].1 - e.1 == dist),
        decreases list.len() - j,
    {
        let other = list[j];
        if other.0 == e.0 && other.1 >= e.1 && other.1 - e.1 == dist {
            return true;
        }
        j += 1;
    }
    false
}

/// Puts the entries of `list` behind those of `matches`, in their order.
pub fn append_entries(matches: &mut Vec<Entry>, list: &Vec<Entry>)
    ensures
        final(matches)@ == old(matches)@ + list@,
{
    let mut j: usize = 0;
    while j < list.len()
        invariant
            j <= list.len(),
            matches@ == old(matches)@ + list@.take(j as int),
        decreases list.len() - j,
    {
        matches.push(list[j]);
        j += 1;
    }
}

/// Keeps in `matches` the entries which `list` continues at distance `dist`,
/// and drops the others. Those kept stay in their order.
pub fn retain_adjacent(matches: &mut Vec<Entry>, list: &Vec<Entry>, dist: usize)
    ensures
        final(matches)@ == old(matches)@.filter(continued_by(list@, dist as int)),
{
    let ghost keep = continued_by(list@, dist as int);
    let mut kept: Vec<Entry> = Vec::new();
    let mut i: usize = 0;
    proof {
        reveal(Seq::filter);
    }
    while i < matches.len()
        invariant
            i <= matches.len(),
            *matches == *old(matches),
            keep == continued_by(list@, dist as int),
            kept@ == matches@.take(i as int).filter(keep),
        decreases matches.len() - i,
    {
        let e = matches[i];
        proof {
            assert(matches@.take(i + 1) =~= matches@.take(i as int).push(e));
            matches@.take(i as int).lemma_filter_push(e, keep);
        }
        if adjacent_in(list, e, dist) {
            kept.push(e);
        }
        i += 1;
    }
    assert(matches@.take(matches.len() as int) =~= matches@);
    *matches = kept;
}

/// A document's postings of `w` hold exactly the positions at which the
/// document has `w`.
pub proof fn lemma_doc_postings_contains(
    doc: Seq<Seq<char>>,
    id: DocumentId,
    w: Seq<char>,
    e: Entry,
)
    requires
        doc.len() <= usize::MAX,
    ensures
        doc_postings(doc, id, w).contains(e) <==> e.0 == id && e.1 < doc.len() && doc[e.1 as int]
            == w,
    decreases doc.len(),
{
    broadcast use {lemma_seq_contains_after_push, lemma_seq_empty_contains_nothing};

    if doc.len() > 0 {
        lemma_doc_postings_contains(doc.drop_last(), id, w, e);
    }
}

/// A document's postings stand by rising position.
pub proof fn lemma_doc_postings_ordered(
    doc: Seq<Seq<char>>,
    id: DocumentId,
    w: Seq<char>,
    i: int,
    j: int,
)
    requires
        doc.len() <= usize::MAX,
        0 <= i < j < doc_postings(doc, id, w).len(),
    ensures
        precedes(doc_postings(doc, id, w)[i], doc_postings(doc, id, w)[j]),
    decreases doc.len(),
{
    if doc.len() > 0 {
        let before = doc_postings(doc.drop_last(), id, w);
        if j < before.len() {
            lemma_doc_postings_ordered(doc.drop_last(), id, w, i, j);
        } else {
            lemma_doc_postings_contains(doc.drop_last(), id, w, before[i]);
        }
    }
}

/// Adding a document adds its postings behind those of the documents before
/// it.
pub proof fn lemma_postings_push(texts: Corpus, doc: Seq<Seq<char>>, w: Seq<char>)
    ensures
        postings(texts.push(doc), w) == postings(texts, w) + doc_postings(
            doc,
            texts.len() as usize,
            w,
        ),
{
    assert(texts.push(doc).drop_last() =~= texts);
}

/// The postings of `w` hold exactly the places at which some document has
/// `w`.
pub proof fn lemma_postings_contains(texts: Corpus, w: Seq<char>, e: Entry)
    requires
        fits(texts),
    ensures
        postings(texts, w).contains(e) <==> word_at(texts, e.0 as int, e.1 as int) == Some(w),
    decreases texts.len(),
{
    broadcast use {lemma_seq_concat_contains_all_elements, lemma_seq_empty_contains_nothing};

    if texts.len() > 0 {
        let id = (texts.len() - 1) as usize;
        lemma_postings_contains(texts.drop_last(), w, e);
        lemma_doc_postings_contains(texts.last(), id, w, e);
    }
}

/// Nothing but a word has postings: in particular the empty word has none.
pub proof fn lemma_postings_of_words_only(texts: Corpus, w: Seq<char>)
    requires
        fits(texts),
        made_of_words(texts),
        !is_word(w),
    ensures
        postings(texts, w) == Seq::<Entry>::empty(),
{
    let list = postings(texts, w);
    if list.len() > 0 {
        lemma_postings_contains(texts, w, list[0]);
    }
}

/// The postings of a word stand in the order of the documents, and within a
/// document by rising position; so no occurrence is listed twice.
pub proof fn lemma_postings_ordered(texts: Corpus, w: Seq<char>, i: int, j: int)
    requires
        fits(texts),
        0 <= i < j < postings(texts, w).len(),
    ensures
        precedes(postings(texts, w)[i], postings(texts, w)[j]),
    decreases texts.len(),
{
    if texts.len() > 0 {
        let id = (texts.len() - 1) as usize;
        let before = postings(texts.drop_last(), w);
        let here = doc_postings(texts.last(), id, w);
        if j < before.len() {
            lemma_postings_ordered(texts.drop_last(), w, i, j);
        } else if i < before.len() {
            lemma_postings_contains(texts.drop_last(), w, before[i]);
            lemma_doc_postings_contains(texts.last(), id, w, here[j - before.len()]);
        } else {
            lemma_doc_postings_ordered(texts.last(), id, w, i - before.len(), j - before.len());
        }
    }
}

/// The postings of `w` continue `e` at distance `dist` exactly when `w`
/// stands `dist` positions after `e` in the document of `e`.
pub proof fn lemma_adjacent_in_postings(texts: Corpus, w: Seq<char>, e: Entry, dist: int)
    requires
        fits(texts),
        0 <= dist,
    ensures
        has_adjacent(postings(texts, w), e, dist) <==> word_at(texts, e.0 as int, e.1 + dist)
            == Some(w),
{
    let list = postings(texts, w);
    if has_adjacent(list, e, dist) {
        let j = choose|j: int|
            0 <= j < list.len() && (#[trigger] list[j]).0 == e.0 && list[j].1 - e.1 == dist;
        lemma_postings_contains(texts, w, list[j]);
    }
    if word_at(texts, e.0 as int, e.1 + dist) == Some(w) {
        let other: Entry = (e.0, (e.1 + dist) as usize);
        lemma_postings_contains(texts, w, other);
    }
}

/// A test that every entry passes keeps the whole sequence.
pub proof fn lemma_filter_all(list: Seq<Entry>, keep: spec_fn(Entry) -> bool)
    requires
        forall|e: Entry| #[trigger] keep(e),
    ensures
        list.filter(keep) == list,
    decreases list.len(),
{
    reveal(Seq::filter);
    if list.len() > 0 {
        lemma_filter_all(list.drop_last(), keep);
    }
}

/// Filtering by one test and then by another is filtering by both at once.
pub proof fn lemma_filter_twice(
    list: Seq<Entry>,
    first: spec_fn(Entry) -> bool,
    second: spec_fn(Entry) -> bool,
    both: spec_fn(Entry) -> bool,
)
    requires
        forall|e: Entry| #[trigger] both(e) <==> first(e) && second(e),
    ensures
        list.filter(first).filter(second) == list.filter(both),
    decreases list.len(),
{
    reveal(Seq::filter);
    if list.len() > 0 {
        lemma_filter_twice(list.drop_last(), first, second, both);
        if first(list.last()) {
            list.drop_last().filter(first).lemma_filter_push(list.last(), second);
        }
    }
}

/// A test that no entry passes keeps nothing.
pub proof fn lemma_filter_none(list: Seq<Entry>, keep: spec_fn(Entry) -> bool)
    requires
        forall|e: Entry| !(#[trigger] keep(e)),
    ensures
        list.filter(keep) == Seq::<Entry>::empty(),
    decreases list.len(),
{
    reveal(Seq::filter);
    if list.len() > 0 {
        lemma_filter_none(list.drop_last(), keep);
    }
}

/// Of no entries, none stay.
pub proof fn lemma_nothing_to_narrow(list: Seq<Entry>, keep: spec_fn(Entry) -> bool)
    requires
        list.len() == 0,
    ensures
        list.filter(keep) == Seq::<Entry>::empty(),
{
    reveal(Seq::filter);
}

/// An empty list continues no entry.
pub proof fn lemma_nothing_continues(candidates: Seq<Entry>, list: Seq<Entry>, dist: int)
    requires
        list.len() == 0,
    ensures
        candidates.filter(continued_by(list, dist)) == Seq::<Entry>::empty(),
{
    lemma_filter_none(candidates, continued_by(list, dist));
}

/// A phrase of one word, or of none, keeps every candidate.
pub proof fn lemma_narrowed_by_one(texts: Corpus, candidates: Seq<Entry>, phrase: Seq<Seq<char>>)
    requires
        phrase.len() <= 1,
    ensures
        narrowed(texts, candidates, phrase) == candidates,
{
    lemma_filter_all(candidates, follows(texts, phrase));
}

/// Narrowing by the first `n + 1` words of a phrase is narrowing by its first
/// `n` words and then keeping the entries which the postings of the next
/// word continue at distance `n`.
pub proof fn lemma_narrowed_by_next(
    texts: Corpus,
    candidates: Seq<Entry>,
    phrase: Seq<Seq<char>>,
    n: int,
)
    requires
        fits(texts),
        1 <= n < phrase.len(),
    ensures
        narrowed(texts, candidates, phrase.take(n)).filter(
            continued_by(postings(texts, phrase[n]), n),
        ) == narrowed(texts, candidates, phrase.take(n + 1)),
{
    let shorter = phrase.take(n);
    let longer = phrase.take(n + 1);
    let next = continued_by(postings(texts, phrase[n]), n);
    assert forall|e: Entry| #[trigger]
        follows(texts, longer)(e) <==> follows(texts, shorter)(e) && next(e) by {
        lemma_adjacent_in_postings(texts, phrase[n], e, n);
        if rest_follows(texts, e, longer) {
            assert(longer[n] == phrase[n]);
            assert forall|i: int| 1 <= i < shorter.len() implies word_at(
                texts,
                e.0 as int,
                e.1 + i,
            ) == Some(#[trigger] shorter[i]) by {
                assert(shorter[i] == longer[i]);
            }
        }
        if rest_follows(texts, e, shorter) && next(e) {
            assert forall|i: int| 1 <= i < longer.len() implies word_at(
                texts,
                e.0 as int,
                e.1 + i,
            ) == Some(#[trigger] longer[i]) by {
                assert(i < n ==> longer[i] == shorter[i]);
            }
        }
    }
    lemma_filter_twice(candidates, follows(texts, shorter), next, follows(texts, longer));
}

/// A search that begins with nothing held finds the matches of the phrase.
pub proof fn lemma_search_from_nothing(texts: Corpus, phrase: Seq<Seq<char>>)
    ensures
        search(texts, phrase, Seq::empty()) == phrase_matches(texts, phrase),
{
    reveal(Seq::filter);
}

/// What passes a test is in the sequence that was tested, and in its order:
/// of a sequence in which every entry precedes the later ones, the entries
/// that pass a test precede one another in the same way.
pub proof fn lemma_filter_ordered(list: Seq<Entry>, keep: spec_fn(Entry) -> bool, i: int, j: int)
    requires
        forall|a: int, b: int| 0 <= a < b < list.len() ==> precedes(list[a], list[b]),
        0 <= i < j < list.filter(keep).len(),
    ensures
        precedes(list.filter(keep)[i], list.filter(keep)[j]),
    decreases list.len(),
{
    reveal(Seq::filter);
    if list.len() > 0 {
        let init = list.drop_last();
        let kept = init.filter(keep);
        if j < kept.len() {
            lemma_filter_ordered(init, keep, i, j);
        } else {
            init.lemma_filter_contains_rev(keep, kept[i]);
        }
    }
}

/// A phrase of one word matches at every posting of the word.
pub proof fn lemma_single_word(texts: Corpus, w: Seq<char>)
    ensures
        phrase_matches(texts, seq![w]) == postings(texts, w),
{
    lemma_narrowed_by_one(texts, postings(texts, w), seq![w]);
}

/// A phrase matches exactly where it stands: an entry is among the matches
/// if and only if the document has the words of the phrase, one after the
/// other, from the entry's position on.
pub proof fn lemma_match_iff_phrase(texts: Corpus, phrase: Seq<Seq<char>>, e: Entry)
    requires
        fits(texts),
        phrase.len() > 0,
    ensures
        phrase_matches(texts, phrase).contains(e) <==> phrase_at(texts, e, phrase),
{
    let list = postings(texts, phrase[0]);
    let keep = follows(texts, phrase);
    lemma_postings_contains(texts, phrase[0], e);
    if list.filter(keep).contains(e) {
        list.lemma_filter_contains_rev(keep, e);
        let k = choose|k: int| 0 <= k < list.filter(keep).len() && list.filter(keep)[k] == e;
        list.lemma_filter_pred(keep, k);
    }
    if phrase_at(texts, e, phrase) {
        let k = choose|k: int| 0 <= k < list.len() && list[k] == e;
        list.lemma_filter_contains(keep, k);
    }
}

/// The matches of a phrase stand in the order of the documents, and within a
/// document by rising position.
pub proof fn lemma_matches_ordered(texts: Corpus, phrase: Seq<Seq<char>>, i: int, j: int)
    requires
        fits(texts),
        0 <= i < j < phrase_matches(texts, phrase).len(),
    ensures
        precedes(phrase_matches(texts, phrase)[i], phrase_matches(texts, phrase)[j]),
{
    let list = postings(texts, phrase[0]);
    assert forall|a: int, b: int| 0 <= a < b < list.len() implies precedes(list[a], list[b]) by {
        lemma_postings_ordered(texts, phrase[0], a, b);
    }
    lemma_filter_ordered(list, follows(texts, phrase), i, j);
}

/// A phrase with a word that stands in no document matches nowhere.
pub proof fn lemma_no_match_without_word(texts: Corpus, phrase: Seq<Seq<char>>, k: int)
    requires
        fits(texts),
        0 <= k < phrase.len(),
        forall|d: int, p: int| word_at(texts, d, p) != Some(phrase[k]),
    ensures
        phrase_matches(texts, phrase) == Seq::<Entry>::empty(),
{
    let found = phrase_matches(texts, phrase);
    if found.len() > 0 {
        lemma_match_iff_phrase(texts, phrase, found[0]);
    }
}

/// A word that has no postings stands in no document.
pub proof fn lemma_no_postings_no_place(texts: Corpus, w: Seq<char>)
    requires
        fits(texts),
        postings(texts, w).len() == 0,
    ensures
        forall|d: int, p: int| word_at(texts, d, p) != Some(w),
{
    assert forall|d: int, p: int| word_at(texts, d, p) != Some(w) by {
        if word_at(texts, d, p) == Some(w) {
            lemma_postings_contains(texts, w, (d as usize, p as usize));
        }
    }
}

/// A search that begins with nothing held and looks up a word that occurs
/// nowhere finds nothing.
pub proof fn lemma_failed_lookup_finds_nothing(texts: Corpus, phrase: Seq<Seq<char>>)
    requires
        fits(texts),
        !lookups_succeed(texts, phrase, Seq::empty()),
    ensures
        phrase_matches(texts, phrase) == Seq::<Entry>::empty(),
{
    if phrase.len() > 0 {
        if postings(texts, phrase[0]).len() == 0 {
            lemma_no_postings_no_place(texts, phrase[0]);
            lemma_no_match_without_word(texts, phrase, 0);
        } else {
            let candidates = Seq::<Entry>::empty() + postings(texts, phrase[0]);
            let i = choose|i: int|
                1 <= i < phrase.len() && #[trigger] reaches(texts, candidates, phrase, i)
                    && postings(texts, phrase[i]).len() == 0;
            lemma_no_postings_no_place(texts, phrase[i]);
            lemma_no_match_without_word(texts, phrase, i);
        }
    }
}

} // verus!
