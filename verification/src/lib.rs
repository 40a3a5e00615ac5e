//! A small line-search library: given a query string and a text, find every
//! line of the text that contains the query, either exactly or ignoring case.

mod config;
mod search;
mod text;

pub use config::Config;
pub use search::{
    lemma_search_complete, lemma_search_deterministic, lemma_search_empty, lemma_search_order,
    lemma_search_sound, line_matches, matching_lines, run_search, search, search_case_insensitive,
    search_result,
};
pub use text::{
    contains_substring, has_substring, lemma_empty_query_occurs, line_end_before, line_views,
    lines_of, lower_of, split_lines, substring_at,
};
