//! Rows of the persistent store: words, their per-dictionary entries, and
//! their pronunciations. The `New*` forms are the rows as inserted, before
//! the store assigns their keys.

use vstd::prelude::*;

verus! {

/// A word: its stable key and its two written forms.
#[derive(Debug)]
pub struct Word {
    pub word_id: i32,
    pub traditional: String,
    pub simplified: String,
}

/// A word row as inserted.
#[derive(Debug)]
pub struct NewWord {
    pub traditional: String,
    pub simplified: String,
}

/// One dictionary's entry for a word.
#[derive(Debug)]
pub struct WordEntry {
    pub entry_id: i32,
    pub word_id: i32,
    pub dictionary_id: i32,
    pub definitions: String,
}

/// A word-entry row as inserted.
#[derive(Debug)]
pub struct NewWordEntry {
    pub word_id: i32,
    pub dictionary_id: i32,
    pub definitions: String,
}

/// One pronunciation of an entry: 0 is Pinyin, 1 is Jyutping.
#[derive(Debug)]
pub struct WordPronunciation {
    pub pronunciation_id: i32,
    pub pronunciation_type: i32,
    pub pronunciation: String,
    pub entry_id: i32,
}

/// A pronunciation row as inserted.
#[derive(Debug)]
pub struct NewWordPronunciation {
    pub pronunciation_type: i32,
    pub pronunciation: String,
    pub entry_id: i32,
}

} // verus!
