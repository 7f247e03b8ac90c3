//! The index: documents go in with their text, phrases are looked up.

use crate::postings::{
    append_entries, continued_by, doc_postings, fits, later_words_occur,
    lemma_failed_lookup_finds_nothing, lemma_match_iff_phrase,
    lemma_narrowed_by_next, lemma_narrowed_by_one, lemma_no_match_without_word,
    lemma_nothing_continues, lemma_nothing_to_narrow, lemma_postings_push,
    lemma_search_from_nothing, lookups_succeed, made_of_words, narrowed, phrase_at,
    phrase_matches, postings, reaches, retain_adjacent, search, word_at, Corpus,
};
use crate::tokens::{
    is_space, lemma_words_are_words, lemma_words_of_blank, lemma_words_of_word, split_words,
    words,
};
use vstd::hash_map::StringHashMap;
use vstd::prelude::*;

pub use crate::postings::{DocumentId, Entry, WordPosition};

verus! {

/// What an index stands for: the documents that were added, in the order of
/// their ids.
pub struct IndexView<T> {
    /// The payload of each document.
    pub payloads: Seq<T>,
    /// The words of each document.
    pub texts: Corpus,
}

/// A positional index over documents with payloads of type `T`.
///
/// A document is added with its text and gets the next free id. The index
/// keeps, for every word, the places at which it occurs; the text itself is
/// not kept.
pub struct Index<T> {
    /// The payloads of the documents, each at the place of its id.
    documents: Vec<T>,
    /// For every word that occurs, the place of its posting list in `lists`.
    slots: StringHashMap<usize>,
    /// The posting lists.
    lists: Vec<Vec<Entry>>,
    /// The words of the documents added so far.
    texts: Ghost<Corpus>,
}

impl<T> View for Index<T> {
    type V = IndexView<T>;

    closed spec fn view(&self) -> IndexView<T> {
        IndexView { payloads: self.documents@, texts: self.texts@ }
    }
}

impl<T> Index<T> {
    /// The posting list that the index keeps for `w`; empty where it keeps
    /// none.
    spec fn stored(&self, w: Seq<char>) -> Seq<Entry> {
        if self.slots@.contains_key(w) {
            self.lists@[self.slots@[w] as int]@
        } else {
            Seq::empty()
        }
    }

    /// Every word that has a slot has a posting list of its own there, and
    /// the list is not empty.
    spec fn slots_ok(&self) -> bool {
        &&& forall|w: Seq<char>|
            (#[trigger] self.slots@.contains_key(w)) ==> self.slots@[w] < self.lists@.len()
                && self.stored(w).len() > 0
        &&& forall|v: Seq<char>, w: Seq<char>|
            #![trigger self.slots@[v], self.slots@[w]]
            self.slots@.contains_key(v) && self.slots@.contains_key(w) && self.slots@[v]
                == self.slots@[w] ==> v == w
    }

    /// The index keeps, for every word, the list of the word's postings.
    #[verifier::opaque]
    pub closed spec fn keeps_postings(&self) -> bool {
        &&& self.slots_ok()
        &&& forall|w: Seq<char>| (#[trigger] self.stored(w)) == postings(self.texts@, w)
    }

    /// The index is well formed: every document has a payload and a text,
    /// ids and positions are `usize`, the texts are made of words, and the
    /// posting lists agree with the texts.
    pub open spec fn wf(&self) -> bool {
        &&& self@.payloads.len() == self@.texts.len()
        &&& fits(self@.texts)
        &&& made_of_words(self@.texts)
        &&& self.keeps_postings()
    }

    /// In a well-formed index the list kept for a word is the list of the
    /// word's postings, and a word that has a slot has postings.
    proof fn lemma_kept(&self, w: Seq<char>)
        requires
            self.wf(),
        ensures
            self.stored(w) == postings(self@.texts, w),
            self.slots@.contains_key(w) ==> self.slots@[w] < self.lists@.len() && postings(
                self@.texts,
                w,
            ).len() > 0,
    {
        reveal(Index::keeps_postings);
    }

    /// An index without documents.
    pub fn new() -> (r: Index<T>)
        ensures
            r.wf(),
            r@.payloads == Seq::<T>::empty(),
            r@.texts == Seq::<Seq<Seq<char>>>::empty(),
    {
        proof {
            reveal(Index::keeps_postings);
        }
        Index {
            documents: Vec::new(),
            slots: StringHashMap::new(),
            lists: Vec::new(),
            texts: Ghost(Seq::empty()),
        }
    }

    /// The payloads of the documents: the payload of document `id` stands at
    /// place `id`.
    pub fn documents(&self) -> (r: &Vec<T>)
        ensures
            r@ == self@.payloads,
    {
        &self.documents
    }

    /// Puts `e` at the end of the posting list of `word`, and begins that
    /// list if there is none yet. The other lists stay as they are.
    fn record(&mut self, word: &String, e: Entry)
        requires
            old(self).slots_ok(),
        ensures
            final(self).slots_ok(),
            final(self).documents == old(self).documents,
            final(self).texts == old(self).texts,
            final(self).stored(word@) == old(self).stored(word@).push(e),
            forall|w: Seq<char>| w != word@ ==> final(self).stored(w) == old(self).stored(w),
    {
        let slot = match self.slots.get(word.as_str()) {
            Some(k) => Some(*k),
            None => None,
        };
        match slot {
            Some(k) => {
                self.lists[k].push(e);
            },
            None => {
                let k = self.lists.len();
                let mut list: Vec<Entry> = Vec::new();
                list.push(e);
                self.lists.push(list);
                self.slots.insert(word.clone(), k);
            },
        }
        assert(self.stored(word@) =~= old(self).stored(word@).push(e));
    }

    /// Adds a document with the text `source` and the payload `document`, and
    /// returns its id: the number of documents added before it.
    pub fn add(&mut self, source: &str, document: T) -> (id: DocumentId)
        requires
            old(self).wf(),
        ensures
            final(self).wf(),
            id == old(self)@.payloads.len(),
            final(self)@.payloads == old(self)@.payloads.push(document),
            final(self)@.texts == old(self)@.texts.push(words(source@)),
    {
        proof {
            reveal(Index::keeps_postings);
        }
        let id = self.documents.len();
        self.documents.push(document);
        let tokens = split_words(source);
        let ghost before = self.texts@;
        let ghost doc = tokens.deep_view();
        let mut pos: usize = 0;
        assert forall|w: Seq<char>|
            (#[trigger] self.stored(w)) == postings(before, w) + doc_postings(
                doc.take(0),
                id,
                w,
            ) by {
            assert(self.stored(w) == old(self).stored(w));
        }
        while pos < tokens.len()
            invariant
                pos <= tokens.len(),
                doc == tokens.deep_view(),
                self.texts@ == before,
                self.documents@ == old(self).documents@.push(document),
                self.slots_ok(),
                forall|w: Seq<char>|
                    (#[trigger] self.stored(w)) == postings(before, w) + doc_postings(
                        doc.take(pos as int),
                        id,
                        w,
                    ),
            decreases tokens.len() - pos,
        {
            let ghost prev = *self;
            self.record(&tokens[pos], (id, pos));
            assert forall|w: Seq<char>|
                (#[trigger] self.stored(w)) == postings(before, w) + doc_postings(
                    doc.take(pos + 1),
                    id,
                    w,
                ) by {
                assert(doc.take(pos + 1).drop_last() =~= doc.take(pos as int));
                assert(prev.stored(w) == postings(before, w) + doc_postings(
                    doc.take(pos as int),
                    id,
                    w,
                ));
            }
            pos += 1;
        }
        let ghost filled = *self;
        self.texts = Ghost(before.push(doc));
        proof {
            assert(doc.take(tokens.len() as int) =~= doc);
            assert(before.push(doc).len() == self.documents.len());
            lemma_words_are_words(source@);
            assert forall|w: Seq<char>|
                (#[trigger] self.stored(w)) == postings(before.push(doc), w) by {
                assert(self.stored(w) == filled.stored(w));
                lemma_postings_push(before, doc, w);
            }
        }
        id
    }

    /// Drops from `matches` every entry after which the words of `phrase`
    /// that come after its first do not follow. The entries that stay keep
    /// their order. A word is looked up only while entries are left; the
    /// result tells whether every word that was looked up occurs in some
    /// document.
    fn narrow(&self, phrase: &Vec<String>, matches: &mut Vec<Entry>) -> (complete: bool)
        requires
            self.wf(),
        ensures
            final(matches)@ == narrowed(self@.texts, old(matches)@, phrase.deep_view()),
            complete == later_words_occur(
                self@.texts,
                old(matches)@,
                phrase.deep_view(),
                phrase.len() as int,
            ),
    {
        let ghost texts = self.texts@;
        let ghost held = matches@;
        let ghost spelled = phrase.deep_view();
        if phrase.len() <= 1 {
            proof {
                lemma_narrowed_by_one(texts, held, spelled);
            }
            return true;
        }
        proof {
            lemma_narrowed_by_one(texts, held, spelled.take(1));
        }
        let mut complete = true;
        let mut i: usize = 1;
        while i < phrase.len()
            invariant
                self.wf(),
                texts == self.texts@,
                spelled == phrase.deep_view(),
                1 <= i <= phrase.len(),
                matches@ == narrowed(texts, held, spelled.take(i as int)),
                complete == later_words_occur(texts, held, spelled, i as int),
            decreases phrase.len() - i,
        {
            proof {
                lemma_narrowed_by_next(texts, held, spelled, i as int);
                self.lemma_kept(spelled[i as int]);
                assert(reaches(texts, held, spelled, i as int) <==> matches@.len() > 0);
            }
            if matches.len() > 0 {
                match self.slots.get(phrase[i].as_str()) {
                    Some(k) => {
                        retain_adjacent(matches, &self.lists[*k], i);
                    },
                    None => {
                        proof {
                            lemma_nothing_continues(
                                matches@,
                                postings(texts, spelled[i as int]),
                                i as int,
                            );
                        }
                        matches.clear();
                        complete = false;
                    },
                }
            } else {
                proof {
                    lemma_nothing_to_narrow(
                        matches@,
                        continued_by(postings(texts, spelled[i as int]), i as int),
                    );
                }
            }
            i += 1;
        }
        assert(spelled.take(phrase.len() as int) =~= spelled);
        complete
    }

    /// Looks up the phrase that `query` spells and leaves in `matches` the
    /// places at which it begins.
    ///
    /// The postings of the first word are put behind what `matches` holds, and
    /// then, word by word, every entry is dropped after which the phrase does
    /// not go on. With `matches` empty before the call, it holds the matches
    /// of the phrase after it. Where the query has no word, or its first word
    /// occurs in no document, `matches` is left as it is.
    ///
    /// The result is `None` where the query has no word or a word was looked
    /// up that occurs in no document, and `Some` otherwise. Words after the
    /// first are looked up only while entries are left in `matches`.
    pub fn find(&self, query: &str, matches: &mut Vec<Entry>) -> (r: Option<()>)
        requires
            self.wf(),
        ensures
            r.is_some() <==> lookups_succeed(self@.texts, words(query@), old(matches)@),
            final(matches)@ == search(self@.texts, words(query@), old(matches)@),
            old(matches)@.len() == 0 ==> final(matches)@ == phrase_matches(
                self@.texts,
                words(query@),
            ),
            old(matches)@.len() == 0 ==> forall|k: int|
                0 <= k < final(matches)@.len() ==> (#[trigger] final(matches)@[k]).0
                    < self@.payloads.len(),
            old(matches)@.len() == 0 && r.is_none() ==> final(matches)@.len() == 0,
    {
        let phrase = split_words(query);
        let ghost spelled = phrase.deep_view();
        proof {
            lemma_search_from_nothing(self.texts@, spelled);
            if matches@.len() == 0 && !lookups_succeed(self.texts@, spelled, matches@) {
                assert(matches@ =~= Seq::<Entry>::empty());
                lemma_failed_lookup_finds_nothing(self.texts@, spelled);
            }
        }
        if phrase.len() == 0 {
            return None;
        }
        proof {
            self.lemma_kept(spelled[0]);
        }
        let first = match self.slots.get(phrase[0].as_str()) {
            Some(k) => &self.lists[*k],
            None => {
                return None;
            },
        };
        append_entries(matches, first);
        let complete = self.narrow(&phrase, matches);
        proof {
            if old(matches)@.len() == 0 {
                assert forall|k: int| 0 <= k < matches@.len() implies (#[trigger] matches@[k]).0
                    < self@.payloads.len() by {
                    lemma_match_iff_phrase(self@.texts, spelled, matches@[k]);
                    assert(word_at(self@.texts, matches@[k].0 as int, matches@[k].1 + 0)
                        is Some);
                }
            }
        }
        if complete {
            Some(())
        } else {
            None
        }
    }

    /// Every word is found where it stands: a query that spells the word at
    /// position `p` of document `d` has `(d, p)` among its matches.
    pub proof fn lemma_finds_every_word(&self, d: DocumentId, p: WordPosition)
        requires
            self.wf(),
            d < self@.texts.len(),
            p < self@.texts[d as int].len(),
        ensures
            phrase_matches(self@.texts, words(self@.texts[d as int][p as int])).contains((d, p)),
    {
        let w = self@.texts[d as int][p as int];
        lemma_words_of_word(w);
        lemma_match_iff_phrase(self@.texts, seq![w], (d, p));
    }

    /// A query matches exactly where its phrase stands: `(d, p)` is among the
    /// matches if and only if document `d` has the words of the query, one
    /// directly after the other, from position `p` on.
    pub proof fn lemma_finds_phrases_only(&self, query: Seq<char>, e: Entry)
        requires
            self.wf(),
        ensures
            phrase_matches(self@.texts, words(query)).contains(e) <==> words(query).len() > 0
                && phrase_at(self@.texts, e, words(query)),
    {
        if words(query).len() > 0 {
            lemma_match_iff_phrase(self@.texts, words(query), e);
        }
    }

    /// A query without words has no matches: the empty query, and every
    /// query that holds separators only.
    pub proof fn lemma_finds_nothing_for_blank(&self, query: Seq<char>)
        requires
            forall|i: int| 0 <= i < query.len() ==> is_space(#[trigger] query[i]),
        ensures
            words(query) == Seq::<Seq<char>>::empty(),
            phrase_matches(self@.texts, words(query)) == Seq::<Entry>::empty(),
    {
        lemma_words_of_blank(query);
    }

    /// A query that holds a word which stands in no document has no matches.
    pub proof fn lemma_finds_nothing_without_word(&self, query: Seq<char>, k: int)
        requires
            self.wf(),
            0 <= k < words(query).len(),
            forall|d: int, p: int| word_at(self@.texts, d, p) != Some(words(query)[k]),
        ensures
            phrase_matches(self@.texts, words(query)) == Seq::<Entry>::empty(),
    {
        lemma_no_match_without_word(self@.texts, words(query), k);
    }

    /// What a search leaves depends on the documents' words alone: two
    /// indexes with the same texts answer every query alike.
    pub proof fn lemma_same_texts_same_matches(
        &self,
        other: &Index<T>,
        query: Seq<char>,
        held: Seq<Entry>,
    )
        requires
            self@.texts == other@.texts,
        ensures
            search(self@.texts, words(query), held) == search(other@.texts, words(query), held),
            phrase_matches(self@.texts, words(query)) == phrase_matches(
                other@.texts,
                words(query),
            ),
    {
    }
}

} // verus!
