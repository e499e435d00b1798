//! Lexicon matching over UTF-8 text: substring, token and greedy
//! character-window modes, with coverage accounting.
pub mod config;
pub mod lexicon;
pub mod lines;
pub mod matching;
pub mod substring;
pub mod text;
pub mod tokens;
pub mod window;
