//! Input and output records of suggestion processing.

use vstd::prelude::*;

verus! {

/// The platform that suggestions are shown on.
#[derive(Debug, Clone, Copy, PartialEq, Eq)]
pub enum Platform {
    Desktop,
    Mobile,
}

/// Everything that suggestions are built from.
#[derive(Debug, Clone)]
pub struct ProcessInput {
    pub query: String,
    pub platform: Platform,
    pub bookmarks: Vec<BookmarkInput>,
    pub history: Vec<HistoryInput>,
    pub open_tabs: Vec<OpenTabInput>,
    pub internal_pages: Vec<InternalPageInput>,
    pub api_result: Option<Vec<ApiSuggestion>>,
}

/// A bookmark.
#[derive(Debug, Clone)]
pub struct BookmarkInput {
    pub url: String,
    pub title: String,
    pub is_favorite: bool,
}

/// A browsing-history entry.
#[derive(Debug, Clone)]
pub struct HistoryInput {
    pub url: String,
    pub title: Option<String>,
    pub number_of_visits: i64,
    /// The time of the last visit, as the IEEE-754 bit pattern of a 64-bit
    /// floating-point number.
    pub last_visit_bits: u64,
    pub failed_to_load: bool,
}

/// An open browser tab.
#[derive(Debug, Clone)]
pub struct OpenTabInput {
    pub url: String,
    pub title: String,
    pub tab_id: Option<String>,
}

/// A page internal to the browser.
#[derive(Debug, Clone)]
pub struct InternalPageInput {
    pub title: String,
    pub url: String,
}

/// A suggestion from the search API.
#[derive(Debug, Clone)]
pub struct ApiSuggestion {
    pub phrase: String,
    pub is_nav: Option<bool>,
}

/// The ranked suggestions.
#[derive(Debug, Clone, PartialEq)]
pub struct ProcessOutput {
    pub top_hits: Vec<SuggestionOutput>,
    pub ddg_suggestions: Vec<SuggestionOutput>,
    pub local_suggestions: Vec<SuggestionOutput>,
    pub can_be_autocompleted: bool,
}

/// One suggestion of the output.
#[derive(Debug, Clone, PartialEq)]
pub enum SuggestionOutput {
    Phrase { phrase: String },
    Website { url: String },
    Bookmark { title: String, url: String, is_favorite: bool, score: i64 },
    HistoryEntry { title: Option<String>, url: String, score: i64 },
    InternalPage { title: String, url: String, score: i64 },
    OpenTab { title: String, url: String, tab_id: Option<String>, score: i64 },
    Unknown { value: String },
    AskAiChat { value: String },
}

} // verus!
