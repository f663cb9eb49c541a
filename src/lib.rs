//! A statistical spelling corrector: a word-frequency model built from a
//! corpus, and a corrector that proposes the most frequent known word within
//! two edits of a misspelled one.
pub mod lexical;
pub mod spell_checker;
pub mod text;
pub mod word_counter;

pub use spell_checker::SpellChecker;
pub use text::clean_line;
pub use word_counter::WordCounter;
