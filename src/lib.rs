//! Histogram of adjacent word pairs ("bigrams") in a text.
//!
//! Words are cleansed to lowercase ASCII tokens, fed one by one to a sliding
//! window of two tokens, and every full window is counted under the key
//! `"<first> <second>"`.

pub mod cleanse;
mod config;
pub mod counter;
mod utf8_split;

pub use cleanse::{clean_words, cleanse_word, get_regex, parse_text_into_vec, WordRegex};
pub use config::Config;
pub use counter::{calculate_counts, feed_tokens, get_key_from_vec, CounterMap};
