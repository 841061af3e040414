//! Command lines whose paths the caller fills in.

use vstd::prelude::*;

verus! {

/// One word of a command line: a text, or the path that the caller holds under a number.
#[derive(Debug, Clone, PartialEq, Eq)]
pub enum Word {
    Text(String),
    Path(usize),
}

/// What a word is.
pub enum WordView {
    Text(Seq<char>),
    Path(usize),
}

impl View for Word {
    type V = WordView;

    open spec fn view(&self) -> WordView {
        match self {
            Word::Text(s) => WordView::Text(s@),
            Word::Path(i) => WordView::Path(*i),
        }
    }
}

/// What the words are.
pub open spec fn word_views(s: Seq<Word>) -> Seq<WordView> {
    Seq::new(s.len(), |i: int| s[i]@)
}

/// Texts as words.
pub open spec fn text_words(s: Seq<Seq<char>>) -> Seq<WordView> {
    Seq::new(s.len(), |i: int| WordView::Text(s[i]))
}

/// Appends a text.
pub(crate) fn add_text(words: &mut Vec<Word>, s: &str)
    ensures
        word_views(final(words)@) == word_views(old(words)@).push(WordView::Text(s@)),
{
    let ghost before = words@;
    let w = Word::Text(s.to_string());
    words.push(w);
    assert(word_views(words@) =~= word_views(before).push(WordView::Text(s@)));
}

/// Appends a path.
pub(crate) fn add_path(words: &mut Vec<Word>, i: usize)
    ensures
        word_views(final(words)@) == word_views(old(words)@).push(WordView::Path(i)),
{
    let ghost before = words@;
    words.push(Word::Path(i));
    assert(word_views(words@) =~= word_views(before).push(WordView::Path(i)));
}

/// Appends several texts.
pub(crate) fn add_texts(words: &mut Vec<Word>, all: &[String])
    ensures
        word_views(final(words)@) == word_views(old(words)@) + text_words(
            crate::text::string_texts(all@),
        ),
{
    let ghost before = word_views(words@);
    let ghost more = text_words(crate::text::string_texts(all@));
    assert(before + more.take(0) =~= before);
    for i in 0..all.len()
        invariant
            more == text_words(crate::text::string_texts(all@)),
            word_views(words@) == before + more.take(i as int),
    {
        add_text(words, all[i].as_str());
        assert(before + more.take(i + 1) =~= (before + more.take(i as int)).push(more[i as int]));
    }
    assert(more.take(more.len() as int) =~= more);
}

} // verus!
