//! A closed list of words of one length.

use vstd::hash_set::StringHashSet;
use vstd::prelude::*;
use vstd::string::*;

verus! {

/// Why a dictionary or one of its words was refused.
#[derive(Debug, Copy, Clone, PartialEq, Eq, Structural)]
pub enum DictionaryError {
    /// A dictionary's word length must be positive.
    InvalidLength,
    /// The word does not have the dictionary's word length.
    LengthMismatch,
}

/// A dictionary of fixed length words. All words in the dictionary
/// have the same length, counted in characters, and a word is in it once or not at all.
pub struct Dictionary {
    wordset: StringHashSet,
    word_length: usize,
}

impl View for Dictionary {
    type V = Set<Seq<char>>;

    closed spec fn view(&self) -> Set<Seq<char>> {
        self.wordset@
    }
}

impl Dictionary {
    /// The word length is positive, every word has it, and the words are finitely many.
    pub closed spec fn wf(&self) -> bool {
        &&& self.word_length > 0
        &&& self.wordset@.finite()
        &&& forall|w: Seq<char>| self.wordset@.contains(w) ==> w.len() == self.word_length
    }

    /// The length, in characters, of every word of this dictionary.
    pub closed spec fn spec_word_length(&self) -> usize {
        self.word_length
    }

    /// An empty dictionary for words of `word_length` characters.
    pub fn new(word_length: usize) -> (made: Result<Dictionary, DictionaryError>)
        ensures
            word_length == 0 ==> made == Err::<Dictionary, DictionaryError>(
                DictionaryError::InvalidLength,
            ),
            word_length > 0 ==> made is Ok && made->Ok_0.wf() && made->Ok_0@ == Set::<
                Seq<char>,
            >::empty() && made->Ok_0.spec_word_length() == word_length,
    {
        if word_length == 0 {
            return Err(DictionaryError::InvalidLength);
        }
        Ok(Dictionary { wordset: StringHashSet::new(), word_length: word_length })
    }

    /// The length, in characters, of every word of this dictionary: never zero.
    #[verifier::when_used_as_spec(spec_word_length)]
    pub fn word_length(&self) -> (length: usize)
        ensures
            length == self.spec_word_length(),
            self.wf() ==> length > 0,
    {
        self.word_length
    }

    /// In a well-formed dictionary the word length is positive, every word has it, and
    /// the words are finitely many.
    pub proof fn lemma_words_have_word_length(&self)
        requires
            self.wf(),
        ensures
            self.spec_word_length() > 0,
            self@.finite(),
            forall|w: Seq<char>| self@.contains(w) ==> w.len() == self.spec_word_length(),
    {
    }

    /// Adds `word`, unless its length is not the dictionary's. Adding a word that is
    /// already there changes nothing.
    pub fn add_word(&mut self, word: &String) -> (added: Result<(), DictionaryError>)
        requires
            old(self).wf(),
        ensures
            final(self).wf(),
            final(self).spec_word_length() == old(self).spec_word_length(),
            word@.len() == old(self).spec_word_length() ==> added == Ok::<(), DictionaryError>(())
                && final(self)@ == old(self)@.insert(word@),
            word@.len() != old(self).spec_word_length() ==> added == Err::<(), DictionaryError>(
                DictionaryError::LengthMismatch,
            ) && final(self)@ == old(self)@,
    {
        let actual_length: usize = word.as_str().unicode_len();
        if self.word_length != actual_length {
            return Err(DictionaryError::LengthMismatch);
        }
        self.wordset.insert(word.clone());
        Ok(())
    }

    /// `add_word` for a string slice.
    pub fn add_word_str(&mut self, word: &str) -> (added: Result<(), DictionaryError>)
        requires
            old(self).wf(),
        ensures
            final(self).wf(),
            final(self).spec_word_length() == old(self).spec_word_length(),
            word@.len() == old(self).spec_word_length() ==> added == Ok::<(), DictionaryError>(())
                && final(self)@ == old(self)@.insert(word@),
            word@.len() != old(self).spec_word_length() ==> added == Err::<(), DictionaryError>(
                DictionaryError::LengthMismatch,
            ) && final(self)@ == old(self)@,
    {
        let owned: String = word.to_owned();
        self.add_word(&owned)
    }

    /// Is `word` in the dictionary?
    pub fn contains(&self, word: &String) -> (found: bool)
        ensures
            found == self@.contains(word@),
    {
        self.wordset.contains(word.as_str())
    }

    /// The number of words in the dictionary.
    pub fn len(&self) -> (count: usize)
        ensures
            count == self@.len(),
    {
        self.wordset.len()
    }
}

} // verus!
