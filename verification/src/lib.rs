//! Search jisho.org words, tatoeba sentences and kanji by radicals:
//! the formatting, selection and search logic, with its contracts.

pub mod strings;
pub mod json;
pub mod options;
pub mod word_search;
pub mod sentence_search;
pub mod kanji_search;
pub mod input;
pub mod query;
