//! Splitting text into words.

use vstd::prelude::*;

verus! {

/// The characters that separate words: the Unicode `White_Space` set.
pub open spec fn is_space(c: char) -> bool {
    let n = c as u32;
    ||| 0x09 <= n <= 0x0d
    ||| n == 0x20
    ||| n == 0x85
    ||| n == 0xa0
    ||| n == 0x1680
    ||| 0x2000 <= n <= 0x200a
    ||| n == 0x2028
    ||| n == 0x2029
    ||| n == 0x202f
    ||| n == 0x205f
    ||| n == 0x3000
}

/// A word: a non-empty run of characters, none of which is a separator.
pub open spec fn is_word(w: Seq<char>) -> bool {
    &&& w.len() > 0
    &&& forall|i: int| 0 <= i < w.len() ==> !is_space(#[trigger] w[i])
}

/// The words of a text, in the order in which they stand in it.
///
/// A word is a longest run of characters without a separator. Reading the
/// text from its start, a separator ends the word before it, any other
/// character either begins a word or extends the one it follows.
///
/// The lemmas at the end of this file say the same without a reading
/// direction: a separator splits a text into two texts whose words follow
/// one another, a word alone is its own single word, and a text of
/// separators has no words.
pub open spec fn words(text: Seq<char>) -> Seq<Seq<char>>
    decreases text.len(),
{
    if text.len() == 0 {
        Seq::empty()
    } else {
        let before = words(text.drop_last());
        let c = text.last();
        if is_space(c) {
            before
        } else if text.len() >= 2 && !is_space(text[text.len() - 2]) {
            before.drop_last().push(before.last().push(c))
        } else {
            before.push(seq![c])
        }
    }
}

/// The characters of `text` that are no separators, in their order.
pub open spec fn without_spaces(text: Seq<char>) -> Seq<char> {
    text.filter(|c: char| !is_space(c))
}

/// Taken on trust: `String::push` of the standard library puts `ch` behind
/// the characters that the string holds and leaves those as they were. The
/// standard library documents it so; nothing here proves it.
pub assume_specification[ String::push ](s: &mut String, ch: char)
    ensures
        final(s)@ == old(s)@.push(ch),
;

/// Tells whether `c` separates words.
pub fn separates(c: char) -> (r: bool)
    ensures
        r == is_space(c),
{
    let n: u32 = c as u32;
    (0x09 <= n && n <= 0x0d) || n == 0x20 || n == 0x85 || n == 0xa0 || n == 0x1680 || (0x2000 <= n
        && n <= 0x200a) || n == 0x2028 || n == 0x2029 || n == 0x202f || n == 0x205f || n == 0x3000
}

/// Splits `text` into its words.
pub fn split_words(text: &str) -> (r: Vec<String>)
    ensures
        r.deep_view() == words(text@),
{
    let mut done: Vec<String> = Vec::new();
    let mut cur = String::new();
    for c in it: text.chars()
        invariant
            it.seq() == text@,
            words(text@.take(it.index() as int)) == (if cur@.len() > 0 {
                done.deep_view().push(cur@)
            } else {
                done.deep_view()
            }),
            cur@.len() > 0 <==> it.index() > 0 && !is_space(text@[it.index() - 1]),
    {
        let ghost seen = text@.take(it.index() as int);
        let ghost begins = cur@.len() == 0;
        assert(text@.take(it.index() + 1).drop_last() =~= seen);
        if separates(c) {
            if !cur.as_str().is_empty() {
                done.push(cur);
                cur = String::new();
            }
        } else {
            cur.push(c);
            assert(begins ==> cur@ =~= seq![c]);
        }
    }
    assert(text@.take(text@.len() as int) =~= text@);
    if !cur.as_str().is_empty() {
        done.push(cur);
    }
    done
}

/// A text that does not end in a separator ends in a word.
pub proof fn lemma_words_open_end(text: Seq<char>)
    requires
        text.len() > 0,
        !is_space(text.last()),
    ensures
        words(text).len() > 0,
{
}

/// Every word of a text is non-empty and holds no separator.
pub proof fn lemma_words_are_words(text: Seq<char>)
    ensures
        forall|k: int| 0 <= k < words(text).len() ==> is_word(#[trigger] words(text)[k]),
    decreases text.len(),
{
    if text.len() > 0 {
        let init = text.drop_last();
        lemma_words_are_words(init);
        if !is_space(text.last()) && text.len() >= 2 && !is_space(text[text.len() - 2]) {
            lemma_words_open_end(init);
        }
    }
}

/// The words of a text, put in a row, are the text without its separators:
/// no character is lost, none is added, and none changes its place.
pub proof fn lemma_words_keep_characters(text: Seq<char>)
    ensures
        words(text).flatten() == without_spaces(text),
    decreases text.len(),
{
    reveal(Seq::filter);
    if text.len() > 0 {
        let init = text.drop_last();
        let before = words(init);
        let c = text.last();
        lemma_words_keep_characters(init);
        if !is_space(c) {
            if text.len() >= 2 && !is_space(text[text.len() - 2]) {
                lemma_words_open_end(init);
                let earlier = before.drop_last();
                assert(before =~= earlier.push(before.last()));
                earlier.lemma_flatten_push(before.last());
                earlier.lemma_flatten_push(before.last().push(c));
            } else {
                before.lemma_flatten_push(seq![c]);
            }
            assert(words(text).flatten() =~= before.flatten().push(c));
        }
    }
}

/// A text of separators alone has no words.
pub proof fn lemma_words_of_blank(text: Seq<char>)
    requires
        forall|i: int| 0 <= i < text.len() ==> is_space(#[trigger] text[i]),
    ensures
        words(text) == Seq::<Seq<char>>::empty(),
    decreases text.len(),
{
    if text.len() > 0 {
        lemma_words_of_blank(text.drop_last());
    }
}

/// A word, taken as a text, has itself as its only word.
pub proof fn lemma_words_of_word(w: Seq<char>)
    requires
        is_word(w),
    ensures
        words(w) == seq![w],
    decreases w.len(),
{
    let init = w.drop_last();
    if init.len() == 0 {
        assert(words(init) =~= Seq::<Seq<char>>::empty());
        assert(seq![w.last()] =~= w);
    } else {
        lemma_words_of_word(init);
        assert(init.push(w.last()) =~= w);
    }
}

/// A separator splits a text: the words of `left`, the separator and `right`
/// in a row are the words of `left` followed by the words of `right`.
pub proof fn lemma_words_split(left: Seq<char>, sep: char, right: Seq<char>)
    requires
        is_space(sep),
    ensures
        words(left.push(sep) + right) == words(left) + words(right),
    decreases right.len(),
{
    let whole = left.push(sep) + right;
    if right.len() == 0 {
        assert(whole.drop_last() =~= left);
    } else {
        let init = right.drop_last();
        lemma_words_split(left, sep, init);
        assert(whole.drop_last() =~= left.push(sep) + init);
        if !is_space(right.last()) && right.len() >= 2 && !is_space(right[right.len() - 2]) {
            lemma_words_open_end(init);
        }
    }
}

} // verus!
