//! The suggestion processing pipeline: score the local sources, rank and
//! deduplicate them, pick the top hits, and add the search-API suggestions
//! within the platform limits.

use vstd::prelude::*;

use crate::scoring::{checked_score, opt_str_chars, score_fits, score_of};
use crate::text::{str_to_lowercase, trim, trim_whitespace, unicode_lowercase};
use crate::types::{
    ApiSuggestion, BookmarkInput, HistoryInput, InternalPageInput, OpenTabInput, Platform,
    ProcessInput, ProcessOutput, SuggestionOutput,
};
use crate::url_utils::{
    is_root, is_root_url, naked_of, naked_string, opt_chars, opt_url_view, parsed_url,
    split_whitespace, str_views, strip_www, tokenize, trimmed_path, without_www, naked_path,
    UrlParts, UrlView,
};

verus! {

/// The most suggestions on desktop, all lists together.
pub const DESKTOP_MAX_SUGGESTIONS: usize = 12;

/// The most top hits.
pub const MAX_TOP_HITS: usize = 2;

/// The most search-API suggestions on mobile, and the number of slots that
/// they keep on desktop ahead of the local suggestions.
pub const MIN_DDG_SLOTS: usize = 5;

/// How many scored sources are kept after sorting.
pub const MAX_SCORED: usize = 100;

/// The quality of a suggestion kind when duplicates merge: bookmark, open
/// tab, internal page, history entry; 0 for the kinds that are not local.
pub open spec fn kind_rank(s: SuggestionOutput) -> int {
    match s {
        SuggestionOutput::Bookmark { .. } => 4,
        SuggestionOutput::OpenTab { .. } => 3,
        SuggestionOutput::InternalPage { .. } => 2,
        SuggestionOutput::HistoryEntry { .. } => 1,
        _ => 0,
    }
}

/// The score of a local suggestion.
pub open spec fn suggestion_score(s: SuggestionOutput) -> int {
    match s {
        SuggestionOutput::Bookmark { score, .. } => score as int,
        SuggestionOutput::OpenTab { score, .. } => score as int,
        SuggestionOutput::InternalPage { score, .. } => score as int,
        SuggestionOutput::HistoryEntry { score, .. } => score as int,
        _ => 0,
    }
}

/// A local suggestion with its score replaced.
pub open spec fn with_score(s: SuggestionOutput, score: int) -> SuggestionOutput {
    match s {
        SuggestionOutput::Bookmark { title, url, is_favorite, .. } => SuggestionOutput::Bookmark {
            title,
            url,
            is_favorite,
            score: score as i64,
        },
        SuggestionOutput::OpenTab { title, url, tab_id, .. } => SuggestionOutput::OpenTab {
            title,
            url,
            tab_id,
            score: score as i64,
        },
        SuggestionOutput::InternalPage { title, url, .. } => SuggestionOutput::InternalPage {
            title,
            url,
            score: score as i64,
        },
        SuggestionOutput::HistoryEntry { title, url, .. } => SuggestionOutput::HistoryEntry {
            title,
            url,
            score: score as i64,
        },
        other => other,
    }
}

/// The query as the scoring sees it: trimmed and lowercased.
pub open spec fn scoring_query(query: Seq<char>) -> Seq<char> {
    unicode_lowercase(trim_whitespace(query))
}

/// A local source ready for ranking: the suggestion it becomes, its parsed
/// URL (`None` where the URL does not parse), its title and visit count.
pub struct LocalSource {
    pub suggestion: SuggestionOutput,
    pub url: Option<UrlParts>,
    pub title: Option<String>,
    pub visits: i64,
}

/// The model of a [`LocalSource`].
pub struct SourceView {
    pub suggestion: SuggestionOutput,
    pub url: Option<UrlView>,
    pub title: Option<Seq<char>>,
    pub visits: int,
}

impl View for LocalSource {
    type V = SourceView;

    open spec fn view(&self) -> SourceView {
        SourceView {
            suggestion: self.suggestion,
            url: opt_url_view(self.url),
            title: opt_chars(self.title),
            visits: self.visits as int,
        }
    }
}

/// The models of a list of sources.
pub open spec fn source_views(v: Seq<LocalSource>) -> Seq<SourceView> {
    v.map_values(|s: LocalSource| s@)
}

/// A search-API result with its phrase parsed as a URL (`None` where it
/// does not parse).
pub struct ApiEntry {
    pub suggestion: ApiSuggestion,
    pub url: Option<UrlParts>,
}

/// The model of an [`ApiEntry`].
pub type ApiView = (ApiSuggestion, Option<UrlView>);

/// The models of a list of API entries.
pub open spec fn api_views(v: Seq<ApiEntry>) -> Seq<ApiView> {
    v.map_values(|e: ApiEntry| (e.suggestion, opt_url_view(e.url)))
}

/// The score of a source against the query; 0 where its URL does not
/// parse or the score does not fit in an `i64`.
pub open spec fn source_score(s: SourceView, query: Seq<char>) -> int {
    match s.url {
        Some(u) => if score_fits(s.title, u, s.visits, query, split_whitespace(query)) {
            score_of(s.title, u, s.visits, query, split_whitespace(query))
        } else {
            0
        },
        None => 0,
    }
}

/// The naked string of a source's URL, by which duplicates are found;
/// empty where it does not parse.
pub open spec fn source_key(s: SourceView) -> Seq<char> {
    match s.url {
        Some(u) => naked_of(u),
        None => seq![],
    }
}

/// How many sources score above 0.
pub open spec fn positive_count(sources: Seq<SourceView>, query: Seq<char>) -> nat
    decreases sources.len(),
{
    if sources.len() == 0 {
        0
    } else {
        positive_count(sources.drop_last(), query) + if source_score(sources.last(), query) > 0 {
            1nat
        } else {
            0nat
        }
    }
}

/// How many sources score above 0 and at least `s`.
pub open spec fn count_scoring_at_least(sources: Seq<SourceView>, query: Seq<char>, s: int) -> nat
    decreases sources.len(),
{
    if sources.len() == 0 {
        0
    } else {
        count_scoring_at_least(sources.drop_last(), query, s) + if source_score(
            sources.last(),
            query,
        ) > 0 && source_score(sources.last(), query) >= s {
            1nat
        } else {
            0nat
        }
    }
}

/// The visits of all sources that score above 0 and share the naked
/// string `key`, summed.
pub open spec fn group_visits(sources: Seq<SourceView>, query: Seq<char>, key: Seq<char>) -> int
    decreases sources.len(),
{
    if sources.len() == 0 {
        0
    } else {
        group_visits(sources.drop_last(), query, key) + if source_score(sources.last(), query) > 0
            && source_key(sources.last()) == key {
            sources.last().visits
        } else {
            0
        }
    }
}

/// A source may give a top hit: any kind but a history entry, or a
/// history entry with a root URL or with more than 3 visits over its
/// duplicates.
pub open spec fn may_be_top_hit(sources: Seq<SourceView>, query: Seq<char>, k: int) -> bool {
    ||| kind_rank(sources[k].suggestion) != 1
    ||| (sources[k].url matches Some(u) && is_root_url(u))
    ||| group_visits(sources, query, source_key(sources[k])) > 3
}

/// The naked string of an API phrase: that of its URL, or, where it does
/// not parse as one, the phrase without a leading `www.` and trailing
/// slashes.
pub open spec fn api_key(a: ApiView) -> Seq<char> {
    match a.1 {
        Some(u) => naked_of(u),
        None => naked_path(strip_www(a.0.phrase@)),
    }
}

/// The suggestion that an API result becomes: a website where it is
/// navigational, a phrase otherwise.
pub open spec fn api_suggestion(a: ApiSuggestion) -> SuggestionOutput {
    if a.is_nav == Some(true) {
        SuggestionOutput::Website { url: a.phrase }
    } else {
        SuggestionOutput::Phrase { phrase: a.phrase }
    }
}

/// The API results as suggestions, in order, without those whose naked
/// string is that of a top hit.
pub open spec fn ddg_candidates(api: Seq<ApiView>, top_keys: Seq<Seq<char>>) -> Seq<
    SuggestionOutput,
>
    decreases api.len(),
{
    if api.len() == 0 {
        seq![]
    } else {
        let rest = ddg_candidates(api.drop_last(), top_keys);
        if top_keys.contains(api_key(api.last())) {
            rest
        } else {
            rest.push(api_suggestion(api.last().0))
        }
    }
}

/// The smaller of two integers.
pub open spec fn min_of(a: int, b: int) -> int {
    if a < b {
        a
    } else {
        b
    }
}

/// The platform limits: at most 2 top hits; on desktop at most 12
/// suggestions in all; on mobile at most 5 search-API suggestions.
pub open spec fn within_platform_limits(platform: Platform, out: ProcessOutput) -> bool {
    &&& out.top_hits@.len() <= 2
    &&& platform == Platform::Desktop ==> out.top_hits@.len() + out.ddg_suggestions@.len()
        + out.local_suggestions@.len() <= 12
    &&& platform == Platform::Mobile ==> out.ddg_suggestions@.len() <= 5
}

/// Scores never increase along the list.
pub open spec fn scores_descending(v: Seq<SuggestionOutput>) -> bool {
    forall|a: int, b: int|
        0 <= a < b < v.len() ==> suggestion_score(#[trigger] v[a]) >= suggestion_score(
            #[trigger] v[b],
        )
}

/// The source at `k` scores above 0.
pub open spec fn scores_above_zero(sources: Seq<SourceView>, query: Seq<char>, k: int) -> bool {
    0 <= k < sources.len() && source_score(sources[k], query) > 0
}

/// The naked string and the score of a source, side by side.
pub open spec fn key_and_score(s: SourceView, query: Seq<char>) -> (Seq<char>, int) {
    (source_key(s), source_score(s, query))
}

/// Some source has the naked string `key` and scores `score`.
pub open spec fn score_of_some_source(
    sources: Seq<SourceView>,
    query: Seq<char>,
    key: Seq<char>,
    score: int,
) -> bool {
    exists|k: int| 0 <= k < sources.len() && #[trigger] key_and_score(sources[k], query) == (key, score)
}

/// `ks` names, for each suggestion of `all` (top hits first, `top_len` of
/// them, then local suggestions), the source it was made from:
/// - that source scores above 0, and the suggestion is that source's, with
///   the score of its naked string's best source;
/// - no two suggestions share a naked string;
/// - no source with the same naked string scores higher, and, where at
///   most 100 sources score above 0, none is of a better kind;
/// - every top hit may be one, and a local suggestion that may be one
///   comes after 2 top hits that score at least as high.
pub open spec fn traced_to_sources(
    all: Seq<SuggestionOutput>,
    top_len: int,
    ks: Seq<int>,
    sources: Seq<SourceView>,
    query: Seq<char>,
) -> bool {
    &&& ks.len() == all.len()
    &&& 0 <= top_len <= all.len()
    &&& forall|i: int| 0 <= i < all.len() ==> 0 <= #[trigger] ks[i] < sources.len()
    &&& forall|i: int|
        0 <= i < all.len() ==> source_score(sources[ks[i]], query) > 0 && #[trigger] all[i]
            == with_score(sources[ks[i]].suggestion, suggestion_score(all[i]))
    &&& forall|i: int|
        0 <= i < all.len() ==> #[trigger] score_of_some_source(
            sources,
            query,
            source_key(sources[ks[i]]),
            suggestion_score(all[i]),
        )
    &&& forall|a: int, b: int|
        0 <= a < b < all.len() ==> source_key(sources[#[trigger] ks[a]]) != source_key(
            sources[#[trigger] ks[b]],
        )
    &&& forall|i: int, k: int|
        0 <= i < all.len() && 0 <= k < sources.len() && source_score(sources[k], query) > 0
            && source_key(#[trigger] sources[k]) == source_key(sources[ks[i]])
            ==> source_score(sources[k], query) <= suggestion_score(#[trigger] all[i])
    &&& positive_count(sources, query) <= MAX_SCORED ==> forall|i: int, k: int|
        0 <= i < all.len() && 0 <= k < sources.len() && source_score(sources[k], query) > 0
            && source_key(#[trigger] sources[k]) == source_key(sources[ks[i]])
            ==> kind_rank(sources[k].suggestion) <= kind_rank(#[trigger] all[i])
    &&& forall|a: int| 0 <= a < top_len ==> may_be_top_hit(sources, query, #[trigger] ks[a])
    &&& forall|b: int|
        top_len <= b < all.len() && may_be_top_hit(sources, query, #[trigger] ks[b]) ==> top_len
            == MAX_TOP_HITS && forall|a: int|
            0 <= a < top_len ==> suggestion_score(#[trigger] all[a]) >= suggestion_score(all[b])
}

/// The naked strings of the sources of the top hits.
pub open spec fn top_keys(ks: Seq<int>, top_len: int, sources: Seq<SourceView>) -> Seq<Seq<char>> {
    Seq::new(top_len as nat, |a: int| source_key(sources[ks[a]]))
}

/// The search suggestions are the first of the candidates: on mobile up to
/// 5; on desktop as many as the slots left, and at least up to 5.
pub open spec fn ddg_within_slots(
    platform: Platform,
    out: ProcessOutput,
    candidates: Seq<SuggestionOutput>,
) -> bool {
    &&& out.ddg_suggestions@ == candidates.take(out.ddg_suggestions@.len() as int)
    &&& platform == Platform::Mobile ==> out.ddg_suggestions@.len() == min_of(
        candidates.len() as int,
        MIN_DDG_SLOTS as int,
    )
    &&& platform == Platform::Desktop ==> out.ddg_suggestions@.len() == min_of(
        candidates.len() as int,
        DESKTOP_MAX_SUGGESTIONS - out.top_hits@.len() - out.local_suggestions@.len(),
    )
    &&& platform == Platform::Desktop ==> out.ddg_suggestions@.len() >= min_of(
        candidates.len() as int,
        MIN_DDG_SLOTS as int,
    )
}

/// What the pipeline gives for a query, its local sources and its API
/// results: suggestions within the platform limits; top hits and local
/// suggestions each by descending score, together holding one at least as
/// good as every source that scores above 0, each traced to its source as
/// [`traced_to_sources`] says; every source that scores above 0 shown or
/// crowded out as [`shown_or_crowded_out`] says; and the API results that
/// do not repeat a top hit, within their slots.
pub open spec fn ranked_output(
    platform: Platform,
    query: Seq<char>,
    sources: Seq<SourceView>,
    api: Seq<ApiView>,
    out: ProcessOutput,
) -> bool {
    let all = out.top_hits@ + out.local_suggestions@;
    &&& within_platform_limits(platform, out)
    &&& !out.can_be_autocompleted
    &&& scores_descending(out.top_hits@)
    &&& scores_descending(out.local_suggestions@)
    &&& forall|k: int|
        #[trigger] scores_above_zero(sources, query, k) ==> exists|j: int|
            0 <= j < all.len() && suggestion_score(#[trigger] all[j]) >= source_score(
                sources[k],
                query,
            )
    &&& exists|ks: Seq<int>| #[trigger] ranked_by(platform, query, sources, api, out, ks)
}

/// The output is ranked as [`ranked_output`] says, with `ks` naming the
/// source of each top hit and local suggestion.
pub open spec fn ranked_by(
    platform: Platform,
    query: Seq<char>,
    sources: Seq<SourceView>,
    api: Seq<ApiView>,
    out: ProcessOutput,
    ks: Seq<int>,
) -> bool {
    let top_len = out.top_hits@.len() as int;
    let candidates = ddg_candidates(api, top_keys(ks, top_len, sources));
    &&& traced_to_sources(out.top_hits@ + out.local_suggestions@, top_len, ks, sources, query)
    &&& ddg_within_slots(platform, out, candidates)
    &&& forall|k: int|
        #[trigger] scores_above_zero(sources, query, k) ==> shown_or_crowded_out(
            platform,
            out,
            ks,
            sources,
            query,
            k,
            candidates.len() as int,
        )
}

/// A source that scores above 0 is shown, in that some suggestion has its
/// naked string; or it is crowded out: on desktop by a full list of local
/// suggestions that all score at least as high, or by more than 100
/// sources that score at least as high.
pub open spec fn shown_or_crowded_out(
    platform: Platform,
    out: ProcessOutput,
    ks: Seq<int>,
    sources: Seq<SourceView>,
    query: Seq<char>,
    k: int,
    ddg_candidate_count: int,
) -> bool {
    let local = out.local_suggestions@;
    ||| exists|j: int|
        0 <= j < out.top_hits@.len() + local.len() && source_key(sources[#[trigger] ks[j]])
            == source_key(sources[k])
    ||| platform == Platform::Desktop && local.len() == DESKTOP_MAX_SUGGESTIONS
        - out.top_hits@.len() - min_of(ddg_candidate_count, MIN_DDG_SLOTS as int) && forall|j: int|
        0 <= j < local.len() ==> suggestion_score(#[trigger] local[j]) >= source_score(
            sources[k],
            query,
        )
    ||| count_scoring_at_least(sources, query, source_score(sources[k], query)) > MAX_SCORED
}

/// A scored source on its way to the output.
struct Candidate {
    suggestion: SuggestionOutput,
    naked: String,
    score: i64,
    source: usize,
}

spec fn candidate_ok(c: Candidate, sources: Seq<SourceView>, query: Seq<char>) -> bool {
    &&& c.source < sources.len()
    &&& source_score(sources[c.source as int], query) > 0
    &&& kind_rank(sources[c.source as int].suggestion) > 0
    &&& c.suggestion == with_score(sources[c.source as int].suggestion, c.score as int)
    &&& c.naked@ == source_key(sources[c.source as int])
    &&& c.score > 0
    &&& exists|k: int|
        0 <= k < sources.len() && #[trigger] key_and_score(sources[k], query) == (
            c.naked@,
            c.score as int,
        )
}

spec fn candidates_descending(v: Seq<Candidate>) -> bool {
    forall|a: int, b: int| 0 <= a < b < v.len() ==> (#[trigger] v[a]).score >= (#[trigger] v[b]).score
}

spec fn sources_distinct(v: Seq<Candidate>) -> bool {
    forall|a: int, b: int| 0 <= a < b < v.len() ==> (#[trigger] v[a]).source != (#[trigger] v[b]).source
}

spec fn candidates_distinct(v: Seq<Candidate>) -> bool {
    forall|a: int, b: int| 0 <= a < b < v.len() ==> (#[trigger] v[a]).naked@ != (#[trigger] v[b]).naked@
}

/// A copy of an optional string.
fn copy_opt(o: &Option<String>) -> (r: Option<String>)
    ensures
        r == *o,
{
    match o {
        Some(t) => Some(t.clone()),
        None => None,
    }
}

/// A copy of a local suggestion with the given score.
fn rescored(s: &SuggestionOutput, score: i64) -> (r: SuggestionOutput)
    requires
        kind_rank(*s) > 0,
    ensures
        r == with_score(*s, score as int),
{
    match s {
        SuggestionOutput::Bookmark { title, url, is_favorite, .. } => SuggestionOutput::Bookmark {
            title: title.clone(),
            url: url.clone(),
            is_favorite: *is_favorite,
            score,
        },
        SuggestionOutput::HistoryEntry { title, url, .. } => SuggestionOutput::HistoryEntry {
            title: copy_opt(title),
            url: url.clone(),
            score,
        },
        SuggestionOutput::InternalPage { title, url, .. } => SuggestionOutput::InternalPage {
            title: title.clone(),
            url: url.clone(),
            score,
        },
        SuggestionOutput::OpenTab { title, url, tab_id, .. } => SuggestionOutput::OpenTab {
            title: title.clone(),
            url: url.clone(),
            tab_id: copy_opt(tab_id),
            score,
        },
        SuggestionOutput::Phrase { phrase } => SuggestionOutput::Phrase { phrase: phrase.clone() },
        SuggestionOutput::Website { url } => SuggestionOutput::Website { url: url.clone() },
        SuggestionOutput::Unknown { value } => SuggestionOutput::Unknown { value: value.clone() },
        SuggestionOutput::AskAiChat { value } => SuggestionOutput::AskAiChat {
            value: value.clone(),
        },
    }
}

/// The rank of a suggestion's kind; see [`kind_rank`].
fn rank_of(s: &SuggestionOutput) -> (r: u8)
    ensures
        r == kind_rank(*s),
{
    match s {
        SuggestionOutput::Bookmark { .. } => 4,
        SuggestionOutput::OpenTab { .. } => 3,
        SuggestionOutput::InternalPage { .. } => 2,
        SuggestionOutput::HistoryEntry { .. } => 1,
        _ => 0,
    }
}

/// The score and the naked string of one source.
fn score_source(src: &LocalSource, query: &str, tokens: &[&str]) -> (r: (i64, String))
    requires
        str_views(tokens@) == split_whitespace(query@),
    ensures
        r.0 == source_score(src@, query@),
        r.1@ == source_key(src@),
{
    match &src.url {
        None => (0, String::new()),
        Some(u) => {
            let title: Option<&str> = match &src.title {
                Some(t) => Some(t.as_str()),
                None => None,
            };
            assert(opt_str_chars(title) == opt_chars(src.title));
            let key = naked_string(u);
            match checked_score(title, u, src.visits, query, tokens) {
                Some(s) => (s, key),
                None => (0, key),
            }
        },
    }
}

/// Inserts a candidate into a list sorted by descending score, after the
/// candidates of equal score; returns where.
#[verifier::rlimit(40)]
fn insert_by_score(
    v: &mut Vec<Candidate>,
    c: Candidate,
    Ghost(sources): Ghost<Seq<SourceView>>,
    Ghost(query): Ghost<Seq<char>>,
) -> (pos: usize)
    requires
        candidates_descending(old(v)@),
        forall|i: int| 0 <= i < old(v)@.len() ==> candidate_ok(#[trigger] old(v)@[i], sources, query),
        candidate_ok(c, sources, query),
    ensures
        pos <= old(v)@.len(),
        final(v)@ == old(v)@.insert(pos as int, c),
        candidates_descending(final(v)@),
        forall|i: int|
            0 <= i < final(v)@.len() ==> candidate_ok(#[trigger] final(v)@[i], sources, query),
        final(v)@[0].score >= c.score,
        old(v)@.len() > 0 ==> final(v)@[0].score >= old(v)@[0].score,
{
    let mut pos: usize = 0;
    while pos < v.len() && v[pos].score >= c.score
        invariant
            pos <= v@.len(),
            v@ == old(v)@,
            forall|j: int| 0 <= j < pos ==> v@[j].score >= c.score,
        decreases v@.len() - pos,
    {
        pos = pos + 1;
    }
    let ghost before = v@;
    v.insert(pos, c);
    assert forall|a: int, b: int| 0 <= a < b < v@.len() implies (#[trigger] v@[a]).score >= (
    #[trigger] v@[b]).score by {
        if b < pos {
        } else if b == pos {
            assert(v@[a] == before[a]);
        } else if a < pos {
            assert(v@[b] == before[b - 1]);
            assert(v@[a] == before[a]);
        } else if a == pos {
            assert(v@[b] == before[b - 1]);
        } else {
            assert(v@[b] == before[b - 1]);
            assert(v@[a] == before[a - 1]);
        }
    }
    assert forall|i: int| 0 <= i < v@.len() implies candidate_ok(#[trigger] v@[i], sources, query) by {
        if i < pos {
            assert(v@[i] == before[i]);
        } else if i > pos {
            assert(v@[i] == before[i - 1]);
        }
    }
    pos
}

/// The score and the naked string of every source.
fn score_each(sources: &Vec<LocalSource>, query: &str, tokens: &[&str]) -> (r: (
    Vec<i64>,
    Vec<String>,
))
    requires
        str_views(tokens@) == split_whitespace(query@),
    ensures
        r.0@.len() == sources@.len(),
        r.1@.len() == sources@.len(),
        forall|k: int|
            0 <= k < sources@.len() ==> #[trigger] r.0@[k] == source_score(
                source_views(sources@)[k],
                query@,
            ),
        forall|k: int|
            0 <= k < sources@.len() ==> (#[trigger] r.1@[k])@ == source_key(
                source_views(sources@)[k],
            ),
{
    let ghost sv = source_views(sources@);
    let mut scores: Vec<i64> = Vec::new();
    let mut keys: Vec<String> = Vec::new();
    for i in 0..sources.len()
        invariant
            sv == source_views(sources@),
            str_views(tokens@) == split_whitespace(query@),
            scores@.len() == i,
            keys@.len() == i,
            forall|k: int| 0 <= k < i ==> #[trigger] scores@[k] == source_score(sv[k], query@),
            forall|k: int| 0 <= k < i ==> (#[trigger] keys@[k])@ == source_key(sv[k]),
    {
        let src = &sources[i];
        assert(sv[i as int] == src@);
        let (s, key) = score_source(src, query, tokens);
        scores.push(s);
        keys.push(key);
    }
    (scores, keys)
}

/// The candidates of all sources that score above 0, sorted by descending
/// score.
#[verifier::rlimit(50)]
fn sort_candidates(
    sources: &Vec<LocalSource>,
    scores: &Vec<i64>,
    keys: &Vec<String>,
    Ghost(query): Ghost<Seq<char>>,
) -> (sorted: Vec<Candidate>)
    requires
        forall|k: int| 0 <= k < sources@.len() ==> kind_rank(#[trigger] sources@[k].suggestion) > 0,
        scores@.len() == sources@.len(),
        keys@.len() == sources@.len(),
        forall|k: int|
            0 <= k < sources@.len() ==> #[trigger] scores@[k] == source_score(
                source_views(sources@)[k],
                query,
            ),
        forall|k: int|
            0 <= k < sources@.len() ==> (#[trigger] keys@[k])@ == source_key(
                source_views(sources@)[k],
            ),
    ensures
        candidates_descending(sorted@),
        forall|i: int|
            0 <= i < sorted@.len() ==> candidate_ok(#[trigger] sorted@[i], source_views(sources@), query),
        forall|k: int|
            #[trigger] scores_above_zero(source_views(sources@), query, k)
                ==> sorted@.len() > 0 && sorted@[0].score >= source_score(
                source_views(sources@)[k],
                query,
            ),
        sorted@.len() == positive_count(source_views(sources@), query),
        forall|k: int|
            #[trigger] scores_above_zero(source_views(sources@), query, k)
                ==> exists|j: int| 0 <= j < sorted@.len() && (#[trigger] sorted@[j]).source == k,
        forall|j: int|
            0 <= j < sorted@.len() ==> (#[trigger] sorted@[j]).score == source_score(
                source_views(sources@)[sorted@[j].source as int],
                query,
            ),
        sources_distinct(sorted@),
{
    let ghost sv = source_views(sources@);
    let mut sorted: Vec<Candidate> = Vec::new();
    for i in 0..sources.len()
        invariant
            sv == source_views(sources@),
            forall|k: int| 0 <= k < sources@.len() ==> kind_rank(#[trigger] sources@[k].suggestion) > 0,
            scores@.len() == sources@.len(),
            keys@.len() == sources@.len(),
            forall|k: int| 0 <= k < sources@.len() ==> #[trigger] scores@[k] == source_score(sv[k], query),
            forall|k: int| 0 <= k < sources@.len() ==> (#[trigger] keys@[k])@ == source_key(sv[k]),
            candidates_descending(sorted@),
            forall|j: int| 0 <= j < sorted@.len() ==> candidate_ok(#[trigger] sorted@[j], sv, query),
            forall|k: int|
                0 <= k < i && #[trigger] scores_above_zero(sv, query, k) ==> sorted@.len() > 0
                    && sorted@[0].score >= source_score(sv[k], query),
            sorted@.len() == positive_count(sv.take(i as int), query),
            forall|k: int|
                0 <= k < i && #[trigger] scores_above_zero(sv, query, k) ==> exists|j: int|
                    0 <= j < sorted@.len() && (#[trigger] sorted@[j]).source == k,
            forall|j: int|
                0 <= j < sorted@.len() ==> (#[trigger] sorted@[j]).score == source_score(
                    sv[sorted@[j].source as int],
                    query,
                ),
            forall|j: int| 0 <= j < sorted@.len() ==> (#[trigger] sorted@[j]).source < i,
            sources_distinct(sorted@),
    {
        let s = scores[i];
        assert(s == source_score(sv[i as int], query));
        assert(sv.take(i + 1).drop_last() =~= sv.take(i as int));
        if s > 0 {
            let src = &sources[i];
            assert(sv[i as int] == src@);
            let c = Candidate {
                suggestion: rescored(&src.suggestion, s),
                naked: keys[i].clone(),
                score: s,
                source: i,
            };
            assert(key_and_score(sv[i as int], query) == (c.naked@, c.score as int));
            let ghost before = sorted@;
            let pos = insert_by_score(&mut sorted, c, Ghost(sv), Ghost(query));
            assert forall|k: int|
                0 <= k < i + 1 && #[trigger] scores_above_zero(sv, query, k) implies exists|j: int|
                0 <= j < sorted@.len() && (#[trigger] sorted@[j]).source == k by {
                if k == i {
                    assert(sorted@[pos as int].source == k);
                } else {
                    let j0 = choose|j: int| 0 <= j < before.len() && (#[trigger] before[j]).source == k;
                    if j0 < pos {
                        assert(sorted@[j0].source == k);
                    } else {
                        assert(sorted@[j0 + 1].source == k);
                    }
                }
            }
            assert forall|j: int| 0 <= j < sorted@.len() implies (#[trigger] sorted@[j]).score
                == source_score(sv[sorted@[j].source as int], query) && sorted@[j].source < i + 1 by {
                if j < pos {
                    assert(sorted@[j] == before[j]);
                } else if j > pos {
                    assert(sorted@[j] == before[j - 1]);
                }
            }
            assert forall|a: int, b: int| 0 <= a < b < sorted@.len() implies (
            #[trigger] sorted@[a]).source != (#[trigger] sorted@[b]).source by {
                if a < pos {
                    assert(sorted@[a] == before[a]);
                } else if a > pos {
                    assert(sorted@[a] == before[a - 1]);
                }
                if b < pos {
                    assert(sorted@[b] == before[b]);
                } else if b > pos {
                    assert(sorted@[b] == before[b - 1]);
                }
            }
        }
    }
    assert(sv.take(sources@.len() as int) =~= sv);
    sorted
}

proof fn lemma_with_score(s: SuggestionOutput, a: int, b: int)
    ensures
        kind_rank(with_score(s, a)) == kind_rank(s),
        with_score(with_score(s, a), b) == with_score(s, b),
{
}

/// Merges a duplicate into the candidate that ranks above it: the score of
/// the kept one (the larger), the kind of higher quality.
fn merge_pair(
    kept: Candidate,
    dup: Candidate,
    Ghost(sources): Ghost<Seq<SourceView>>,
    Ghost(query): Ghost<Seq<char>>,
) -> (r: Candidate)
    requires
        candidate_ok(kept, sources, query),
        candidate_ok(dup, sources, query),
        kept.naked@ == dup.naked@,
        kept.score >= dup.score,
    ensures
        candidate_ok(r, sources, query),
        r.naked@ == kept.naked@,
        r.score == kept.score,
        kind_rank(r.suggestion) >= kind_rank(kept.suggestion),
        kind_rank(r.suggestion) >= kind_rank(dup.suggestion),
{
    proof {
        lemma_with_score(sources[kept.source as int].suggestion, kept.score as int, 0);
        lemma_with_score(sources[dup.source as int].suggestion, dup.score as int, kept.score as int);
    }
    if rank_of(&dup.suggestion) > rank_of(&kept.suggestion) {
        Candidate {
            suggestion: rescored(&dup.suggestion, kept.score),
            naked: kept.naked,
            score: kept.score,
            source: dup.source,
        }
    } else {
        kept
    }
}

/// The index of the candidate with the given naked string, if any.
fn find_naked(v: &Vec<Candidate>, key: &String) -> (r: Option<usize>)
    ensures
        r matches Some(k) ==> k < v@.len() && v@[k as int].naked@ == key@,
        r is None ==> forall|j: int| 0 <= j < v@.len() ==> (#[trigger] v@[j]).naked@ != key@,
{
    let mut k: usize = 0;
    while k < v.len()
        invariant
            k <= v@.len(),
            forall|j: int| 0 <= j < k ==> (#[trigger] v@[j]).naked@ != key@,
        decreases v@.len() - k,
    {
        if v[k].naked == *key {
            return Some(k);
        }
        k = k + 1;
    }
    None
}

/// Merges the candidates that share a naked string, keeping the order.
#[verifier::rlimit(60)]
fn merge_duplicates(
    sorted: Vec<Candidate>,
    Ghost(sources): Ghost<Seq<SourceView>>,
    Ghost(query): Ghost<Seq<char>>,
) -> (merged: Vec<Candidate>)
    requires
        candidates_descending(sorted@),
        forall|i: int| 0 <= i < sorted@.len() ==> candidate_ok(#[trigger] sorted@[i], sources, query),
    ensures
        candidates_descending(merged@),
        forall|i: int| 0 <= i < merged@.len() ==> candidate_ok(#[trigger] merged@[i], sources, query),
        candidates_distinct(merged@),
        merged@.len() <= sorted@.len(),
        sorted@.len() > 0 ==> merged@.len() > 0 && merged@[0].score == sorted@[0].score,
        forall|j: int|
            0 <= j < sorted@.len() ==> exists|a: int|
                0 <= a < merged@.len() && (#[trigger] merged@[a]).naked@ == (#[trigger] sorted@[j]).naked@
                    && merged@[a].score >= sorted@[j].score && kind_rank(merged@[a].suggestion)
                    >= kind_rank(sorted@[j].suggestion),
        forall|a: int|
            0 <= a < merged@.len() ==> (#[trigger] merged@[a]).score >= sorted@[sorted@.len() - 1].score,
{
    let ghost n = sorted@.len();
    let ghost original = sorted@;
    let mut rest = sorted;
    let mut merged: Vec<Candidate> = Vec::new();
    while rest.len() > 0
        invariant
            n == original.len(),
            rest@.len() <= n,
            rest@ == original.skip(n - rest@.len()),
            candidates_descending(original),
            candidates_descending(merged@),
            forall|i: int| 0 <= i < original.len() ==> candidate_ok(#[trigger] original[i], sources, query),
            forall|i: int|
                0 <= i < merged@.len() ==> candidate_ok(#[trigger] merged@[i], sources, query),
            candidates_distinct(merged@),
            forall|a: int, j: int|
                0 <= a < merged@.len() && n - rest@.len() <= j < n ==> (#[trigger] merged@[a]).score
                    >= (#[trigger] original[j]).score,
            merged@.len() <= n - rest@.len(),
            merged@.len() > 0 ==> merged@[0].score == original[0].score,
            rest@.len() < n ==> merged@.len() > 0,
            forall|j: int|
                0 <= j < n - rest@.len() ==> exists|a: int|
                    0 <= a < merged@.len() && (#[trigger] merged@[a]).naked@ == (
                    #[trigger] original[j]).naked@ && merged@[a].score >= original[j].score
                        && kind_rank(merged@[a].suggestion) >= kind_rank(original[j].suggestion),
            forall|a: int|
                0 <= a < merged@.len() ==> (#[trigger] merged@[a]).score >= original[n - 1].score,
        decreases rest@.len(),
    {
        let ghost p = n - rest@.len();
        let c = rest.remove(0);
        assert(c == original[p]);
        assert(rest@ =~= original.skip(p + 1));
        let ghost before = merged@;
        match find_naked(&merged, &c.naked) {
            Some(k) => {
                let kept = merged.remove(k);
                assert(kept == before[k as int]);
                assert(kept.score >= c.score);
                let m = merge_pair(kept, c, Ghost(sources), Ghost(query));
                merged.insert(k, m);
                assert(merged@ =~= before.update(k as int, m));
                assert(merged@[k as int].score >= original[n - 1].score);
                assert forall|j: int| 0 <= j < p + 1 implies exists|a: int|
                    0 <= a < merged@.len() && (#[trigger] merged@[a]).naked@ == (
                    #[trigger] original[j]).naked@ && merged@[a].score >= original[j].score
                        && kind_rank(merged@[a].suggestion) >= kind_rank(original[j].suggestion) by {
                    if j == p {
                        assert(merged@[k as int] == m);
                    } else {
                        let a0 = choose|a: int|
                            0 <= a < before.len() && (#[trigger] before[a]).naked@ == (
                            #[trigger] original[j]).naked@ && before[a].score >= original[j].score
                                && kind_rank(before[a].suggestion) >= kind_rank(
                                original[j].suggestion,
                            );
                        assert(merged@[a0].naked@ == original[j].naked@);
                    }
                }
            },
            None => {
                merged.push(c);
                assert(merged@ =~= before.push(c));
                assert(original[p].score >= original[n - 1].score);
                assert forall|j: int| 0 <= j < p + 1 implies exists|a: int|
                    0 <= a < merged@.len() && (#[trigger] merged@[a]).naked@ == (
                    #[trigger] original[j]).naked@ && merged@[a].score >= original[j].score
                        && kind_rank(merged@[a].suggestion) >= kind_rank(original[j].suggestion) by {
                    if j == p {
                        assert(merged@[before.len() as int] == c);
                    } else {
                        let a0 = choose|a: int|
                            0 <= a < before.len() && (#[trigger] before[a]).naked@ == (
                            #[trigger] original[j]).naked@ && before[a].score >= original[j].score
                                && kind_rank(before[a].suggestion) >= kind_rank(
                                original[j].suggestion,
                            );
                        assert(merged@[a0] == before[a0]);
                    }
                }
            },
        }
    }
    merged
}

/// The visits of the sources that score above 0 with the naked string
/// `key`, summed; see [`group_visits`].
fn group_visits_of(
    sources: &Vec<LocalSource>,
    scores: &Vec<i64>,
    keys: &Vec<String>,
    key: &String,
    Ghost(query): Ghost<Seq<char>>,
) -> (r: i128)
    requires
        scores@.len() == sources@.len(),
        keys@.len() == sources@.len(),
        forall|k: int|
            0 <= k < sources@.len() ==> #[trigger] scores@[k] == source_score(
                source_views(sources@)[k],
                query,
            ),
        forall|k: int|
            0 <= k < sources@.len() ==> (#[trigger] keys@[k])@ == source_key(
                source_views(sources@)[k],
            ),
    ensures
        r == group_visits(source_views(sources@), query, key@),
{
    let ghost sv = source_views(sources@);
    let mut sum: i128 = 0;
    let mut i: usize = 0;
    while i < sources.len()
        invariant
            i <= sources@.len(),
            sv == source_views(sources@),
            scores@.len() == sources@.len(),
            keys@.len() == sources@.len(),
            forall|k: int| 0 <= k < sources@.len() ==> #[trigger] scores@[k] == source_score(sv[k], query),
            forall|k: int| 0 <= k < sources@.len() ==> (#[trigger] keys@[k])@ == source_key(sv[k]),
            sum == group_visits(sv.take(i as int), query, key@),
            -(i as int) * 0x8000_0000_0000_0000 <= sum <= (i as int) * 0x7fff_ffff_ffff_ffff,
        decreases sources@.len() - i,
    {
        assert(sv.take(i + 1).drop_last() =~= sv.take(i as int));
        assert(sv.take(i + 1).last() == sv[i as int]);
        assert(sv[i as int] == sources@[i as int]@);
        if scores[i] > 0 && keys[i] == *key {
            let v = sources[i].visits;
            sum = sum + v as i128;
        }
        i = i + 1;
    }
    assert(sv.take(sources@.len() as int) =~= sv);
    sum
}

/// Whether the candidate's source may give a top hit; see
/// [`may_be_top_hit`].
fn candidate_may_be_top_hit(
    c: &Candidate,
    sources: &Vec<LocalSource>,
    scores: &Vec<i64>,
    keys: &Vec<String>,
    Ghost(query): Ghost<Seq<char>>,
) -> (r: bool)
    requires
        candidate_ok(*c, source_views(sources@), query),
        scores@.len() == sources@.len(),
        keys@.len() == sources@.len(),
        forall|k: int|
            0 <= k < sources@.len() ==> #[trigger] scores@[k] == source_score(
                source_views(sources@)[k],
                query,
            ),
        forall|k: int|
            0 <= k < sources@.len() ==> (#[trigger] keys@[k])@ == source_key(
                source_views(sources@)[k],
            ),
    ensures
        r == may_be_top_hit(source_views(sources@), query, c.source as int),
{
    let ghost sv = source_views(sources@);
    let src = &sources[c.source];
    assert(sv[c.source as int] == src@);
    proof {
        lemma_with_score(src.suggestion, c.score as int, 0);
    }
    if rank_of(&c.suggestion) != 1 {
        return true;
    }
    let root = match &src.url {
        Some(u) => is_root(u),
        None => false,
    };
    if root {
        return true;
    }
    group_visits_of(sources, scores, keys, &c.naked, Ghost(query)) > 3
}

/// Picks up to 2 top hits, in order, among the candidates that may give
/// one; the rest are the local suggestions, in order.
fn select_top_hits(
    merged: Vec<Candidate>,
    sources: &Vec<LocalSource>,
    scores: &Vec<i64>,
    keys: &Vec<String>,
    Ghost(query): Ghost<Seq<char>>,
) -> (r: (Vec<Candidate>, Vec<Candidate>))
    requires
        candidates_descending(merged@),
        forall|i: int|
            0 <= i < merged@.len() ==> candidate_ok(#[trigger] merged@[i], source_views(sources@), query),
        candidates_distinct(merged@),
        scores@.len() == sources@.len(),
        keys@.len() == sources@.len(),
        forall|k: int|
            0 <= k < sources@.len() ==> #[trigger] scores@[k] == source_score(
                source_views(sources@)[k],
                query,
            ),
        forall|k: int|
            0 <= k < sources@.len() ==> (#[trigger] keys@[k])@ == source_key(
                source_views(sources@)[k],
            ),
    ensures
        r.0@.len() <= MAX_TOP_HITS,
        candidates_descending(r.0@),
        candidates_descending(r.1@),
        forall|i: int| 0 <= i < r.0@.len() ==> exists|j: int| 0 <= j < merged@.len() && #[trigger] r.0@[i] == merged@[j],
        forall|i: int| 0 <= i < r.1@.len() ==> exists|j: int| 0 <= j < merged@.len() && #[trigger] r.1@[i] == merged@[j],
        candidates_distinct(r.0@),
        candidates_distinct(r.1@),
        forall|a: int, b: int|
            0 <= a < r.0@.len() && 0 <= b < r.1@.len() ==> (#[trigger] r.0@[a]).naked@ != (
            #[trigger] r.1@[b]).naked@,
        merged@.len() > 0 ==> (r.0@.len() > 0 && r.0@[0].score == merged@[0].score) || (r.1@.len()
            > 0 && r.1@[0].score == merged@[0].score),
        forall|a: int|
            0 <= a < r.0@.len() ==> may_be_top_hit(
                source_views(sources@),
                query,
                (#[trigger] r.0@[a]).source as int,
            ),
        forall|b: int|
            0 <= b < r.1@.len() && may_be_top_hit(
                source_views(sources@),
                query,
                (#[trigger] r.1@[b]).source as int,
            ) ==> r.0@.len() == MAX_TOP_HITS && forall|a: int|
                0 <= a < r.0@.len() ==> (#[trigger] r.0@[a]).score >= r.1@[b].score,
        forall|j: int|
            #![trigger merged@[j]]
            0 <= j < merged@.len() ==> (exists|a: int|
                0 <= a < r.0@.len() && #[trigger] r.0@[a] == merged@[j]) || (exists|b: int|
                0 <= b < r.1@.len() && #[trigger] r.1@[b] == merged@[j]),
{
    let ghost all = merged@;
    let ghost sv = source_views(sources@);
    let mut rest = merged;
    let mut top: Vec<Candidate> = Vec::new();
    let mut local: Vec<Candidate> = Vec::new();
    let ghost mut i: int = 0;
    while rest.len() > 0
        invariant
            0 <= i <= all.len(),
            rest@ == all.skip(i),
            sv == source_views(sources@),
            candidates_descending(all),
            candidates_distinct(all),
            forall|j: int| 0 <= j < all.len() ==> candidate_ok(#[trigger] all[j], sv, query),
            scores@.len() == sources@.len(),
            keys@.len() == sources@.len(),
            forall|k: int| 0 <= k < sources@.len() ==> #[trigger] scores@[k] == source_score(sv[k], query),
            forall|k: int| 0 <= k < sources@.len() ==> (#[trigger] keys@[k])@ == source_key(sv[k]),
            top@.len() <= MAX_TOP_HITS,
            candidates_descending(top@),
            candidates_descending(local@),
            forall|a: int|
                0 <= a < top@.len() ==> exists|j: int| 0 <= j < i && #[trigger] top@[a] == all[j],
            forall|a: int|
                0 <= a < local@.len() ==> exists|j: int| 0 <= j < i && #[trigger] local@[a] == all[j],
            candidates_distinct(top@),
            candidates_distinct(local@),
            forall|a: int, b: int|
                0 <= a < top@.len() && 0 <= b < local@.len() ==> (#[trigger] top@[a]).naked@ != (
                #[trigger] local@[b]).naked@,
            i > 0 ==> (top@.len() > 0 && top@[0].score == all[0].score) || (local@.len() > 0
                && local@[0].score == all[0].score),
            forall|a: int|
                0 <= a < top@.len() ==> may_be_top_hit(sv, query, (#[trigger] top@[a]).source as int),
            forall|b: int|
                0 <= b < local@.len() && may_be_top_hit(sv, query, (#[trigger] local@[b]).source as int)
                    ==> top@.len() == MAX_TOP_HITS && forall|a: int|
                    0 <= a < top@.len() ==> (#[trigger] top@[a]).score >= local@[b].score,
            forall|j: int|
                #![trigger all[j]]
                0 <= j < i ==> (exists|a: int| 0 <= a < top@.len() && #[trigger] top@[a] == all[j])
                    || (exists|b: int| 0 <= b < local@.len() && #[trigger] local@[b] == all[j]),
        decreases rest@.len(),
    {
        let c = rest.remove(0);
        assert(c == all[i]);
        assert(rest@ =~= all.skip(i + 1));
        let eligible = candidate_may_be_top_hit(&c, sources, scores, keys, Ghost(query));
        let ghost top_before = top@;
        let ghost local_before = local@;
        assert forall|a: int| 0 <= a < top_before.len() implies (#[trigger] top_before[a]).naked@
            != c.naked@ && top_before[a].score >= c.score by {
            let j = choose|j: int| 0 <= j < i && #[trigger] top_before[a] == all[j];
            assert(all[j].naked@ != all[i].naked@);
        }
        assert forall|a: int| 0 <= a < local_before.len() implies (#[trigger] local_before[a]).naked@
            != c.naked@ && local_before[a].score >= c.score by {
            let j = choose|j: int| 0 <= j < i && #[trigger] local_before[a] == all[j];
            assert(all[j].naked@ != all[i].naked@);
        }
        if top.len() < MAX_TOP_HITS && eligible {
            top.push(c);
            assert(top@ =~= top_before.push(c));
        } else {
            local.push(c);
            assert(local@ =~= local_before.push(c));
        }
        proof {
            i = i + 1;
            assert forall|a: int| 0 <= a < top@.len() implies exists|j: int|
                0 <= j < i && #[trigger] top@[a] == all[j] by {
                if a < top_before.len() {
                    let j = choose|j: int| 0 <= j < i - 1 && #[trigger] top_before[a] == all[j];
                    assert(top@[a] == top_before[a]);
                } else {
                    assert(top@[a] == all[i - 1]);
                }
            }
            assert forall|a: int| 0 <= a < local@.len() implies exists|j: int|
                0 <= j < i && #[trigger] local@[a] == all[j] by {
                if a < local_before.len() {
                    let j = choose|j: int| 0 <= j < i - 1 && #[trigger] local_before[a] == all[j];
                    assert(local@[a] == local_before[a]);
                } else {
                    assert(local@[a] == all[i - 1]);
                }
            }
            assert forall|j: int| #![trigger all[j]] 0 <= j < i implies (exists|a: int|
                0 <= a < top@.len() && #[trigger] top@[a] == all[j]) || (exists|b: int|
                0 <= b < local@.len() && #[trigger] local@[b] == all[j]) by {
                if j == i - 1 {
                    if top@.len() > top_before.len() {
                        assert(top@[top_before.len() as int] == all[j]);
                    } else {
                        assert(local@[local_before.len() as int] == all[j]);
                    }
                } else {
                    if exists|a: int| 0 <= a < top_before.len() && #[trigger] top_before[a] == all[j] {
                        let a = choose|a: int| 0 <= a < top_before.len() && #[trigger] top_before[a] == all[j];
                        assert(top@[a] == top_before[a]);
                    } else {
                        let b = choose|b: int| 0 <= b < local_before.len() && #[trigger] local_before[b] == all[j];
                        assert(local@[b] == local_before[b]);
                    }
                }
            }
        }
    }
    assert forall|a: int| 0 <= a < top@.len() implies exists|j: int|
        0 <= j < all.len() && #[trigger] top@[a] == all[j] by {
        let j = choose|j: int| 0 <= j < i && #[trigger] top@[a] == all[j];
    }
    assert forall|a: int| 0 <= a < local@.len() implies exists|j: int|
        0 <= j < all.len() && #[trigger] local@[a] == all[j] by {
        let j = choose|j: int| 0 <= j < i && #[trigger] local@[a] == all[j];
    }
    (top, local)
}

/// No source with the candidate's naked string scores higher.
spec fn top_score_of_its_key(x: Candidate, sources: Seq<SourceView>, query: Seq<char>) -> bool {
    forall|k: int|
        0 <= k < sources.len() && source_score(sources[k], query) > 0 && source_key(
            #[trigger] sources[k],
        ) == x.naked@ ==> source_score(sources[k], query) <= x.score
}

/// Where no candidate was cut, each candidate that the output keeps is
/// the best of its naked string in score and kind.
spec fn best_of_its_key(x: Candidate, sources: Seq<SourceView>, query: Seq<char>) -> bool {
    forall|k: int|
        0 <= k < sources.len() && source_score(sources[k], query) > 0 && source_key(
            #[trigger] sources[k],
        ) == x.naked@ ==> source_score(sources[k], query) <= x.score && kind_rank(
            sources[k].suggestion,
        ) <= kind_rank(x.suggestion)
}

proof fn lemma_merged_best(
    full: Seq<Candidate>,
    mv: Seq<Candidate>,
    sv: Seq<SourceView>,
    query: Seq<char>,
)
    requires
        forall|k: int|
            #[trigger] scores_above_zero(sv, query, k) ==> exists|j: int|
                0 <= j < full.len() && (#[trigger] full[j]).source == k,
        forall|j: int| 0 <= j < full.len() ==> candidate_ok(#[trigger] full[j], sv, query),
        forall|j: int|
            0 <= j < full.len() ==> (#[trigger] full[j]).score == source_score(
                sv[full[j].source as int],
                query,
            ),
        forall|j: int|
            0 <= j < full.len() ==> exists|a: int|
                0 <= a < mv.len() && (#[trigger] mv[a]).naked@ == (#[trigger] full[j]).naked@
                    && mv[a].score >= full[j].score && kind_rank(mv[a].suggestion) >= kind_rank(
                    full[j].suggestion,
                ),
        candidates_distinct(mv),
    ensures
        forall|j: int| 0 <= j < mv.len() ==> best_of_its_key(#[trigger] mv[j], sv, query),
{
    assert forall|jx: int| 0 <= jx < mv.len() implies best_of_its_key(#[trigger] mv[jx], sv, query) by {
        let x = mv[jx];
        assert forall|k: int|
            0 <= k < sv.len() && source_score(sv[k], query) > 0 && source_key(#[trigger] sv[k])
                == x.naked@ implies source_score(sv[k], query) <= x.score && kind_rank(
            sv[k].suggestion,
        ) <= kind_rank(x.suggestion) by {
            assert(scores_above_zero(sv, query, k));
            let j = choose|j: int| 0 <= j < full.len() && (#[trigger] full[j]).source == k;
            assert(candidate_ok(full[j], sv, query));
            lemma_with_score(sv[k].suggestion, full[j].score as int, 0);
            let a = choose|a: int|
                0 <= a < mv.len() && (#[trigger] mv[a]).naked@ == (#[trigger] full[j]).naked@
                    && mv[a].score >= full[j].score && kind_rank(mv[a].suggestion) >= kind_rank(
                    full[j].suggestion,
                );
            if a != jx {
                if a < jx {
                    assert(mv[a].naked@ != mv[jx].naked@);
                } else {
                    assert(mv[jx].naked@ != mv[a].naked@);
                }
            }
        }
    }
}

proof fn lemma_count_covers(sv: Seq<SourceView>, query: Seq<char>, s: int, idx: Set<int>)
    requires
        idx.finite(),
        forall|i: int|
            #[trigger] idx.contains(i) ==> 0 <= i < sv.len() && source_score(sv[i], query) > 0
                && source_score(sv[i], query) >= s,
    ensures
        count_scoring_at_least(sv, query, s) >= idx.len(),
    decreases sv.len(),
{
    broadcast use vstd::set::group_set_axioms;

    if sv.len() == 0 {
        assert(idx =~= Set::<int>::empty());
    } else {
        let n = sv.len() - 1;
        let rest = idx.remove(n);
        assert forall|i: int| #[trigger] rest.contains(i) implies 0 <= i < sv.drop_last().len()
            && source_score(sv.drop_last()[i], query) > 0 && source_score(sv.drop_last()[i], query)
            >= s by {
            assert(sv.drop_last()[i] == sv[i]);
        }
        lemma_count_covers(sv.drop_last(), query, s, rest);
    }
}

/// Candidates of distinct sources that all score at least `s` are no more
/// than the sources that do.
proof fn lemma_distinct_sources_count(v: Seq<Candidate>, sv: Seq<SourceView>, query: Seq<char>, s: int)
    requires
        sources_distinct(v),
        forall|i: int| 0 <= i < v.len() ==> candidate_ok(#[trigger] v[i], sv, query),
        forall|i: int|
            0 <= i < v.len() ==> (#[trigger] v[i]).score == source_score(
                sv[v[i].source as int],
                query,
            ) && v[i].score >= s,
    ensures
        count_scoring_at_least(sv, query, s) >= v.len(),
{
    let idx = v.map_values(|c: Candidate| c.source as int);
    assert forall|a: int, b: int| 0 <= a < idx.len() && 0 <= b < idx.len() && a != b implies idx[a]
        != idx[b] by {
        if a < b {
            assert(v[a].source != v[b].source);
        } else {
            assert(v[b].source != v[a].source);
        }
    }
    assert(idx.no_duplicates());
    idx.unique_seq_to_set();
    assert forall|i: int| #[trigger] idx.to_set().contains(i) implies 0 <= i < sv.len()
        && source_score(sv[i], query) > 0 && source_score(sv[i], query) >= s by {
        let j = choose|j: int| 0 <= j < idx.len() && idx[j] == i;
        assert(candidate_ok(v[j], sv, query));
    }
    lemma_count_covers(sv, query, s, idx.to_set());
}

/// Keeps the first 100 candidates.
fn keep_best(v: &mut Vec<Candidate>, Ghost(sources): Ghost<Seq<SourceView>>, Ghost(query): Ghost<Seq<char>>)
    requires
        candidates_descending(old(v)@),
        forall|i: int| 0 <= i < old(v)@.len() ==> candidate_ok(#[trigger] old(v)@[i], sources, query),
    ensures
        candidates_descending(final(v)@),
        forall|i: int| 0 <= i < final(v)@.len() ==> candidate_ok(#[trigger] final(v)@[i], sources, query),
        old(v)@.len() > 0 ==> final(v)@.len() > 0 && final(v)@[0] == old(v)@[0],
        old(v)@.len() <= MAX_SCORED ==> final(v)@ == old(v)@,
        final(v)@.len() == min_of(old(v)@.len() as int, MAX_SCORED as int),
        forall|i: int| 0 <= i < final(v)@.len() ==> #[trigger] final(v)@[i] == old(v)@[i],
{
    v.truncate(MAX_SCORED);
    assert forall|i: int| 0 <= i < final(v)@.len() implies #[trigger] final(v)@[i] == old(v)@[i] by {}
    assert(old(v)@.len() <= MAX_SCORED ==> final(v)@ =~= old(v)@);
}

/// The candidates sorted by descending score, cut to the best 100, with
/// duplicates merged.
#[verifier::rlimit(100)]
fn cut_and_merge(
    sources: &Vec<LocalSource>,
    scores: &Vec<i64>,
    keys: &Vec<String>,
    Ghost(query): Ghost<Seq<char>>,
) -> (merged: Vec<Candidate>)
    requires
        forall|k: int| 0 <= k < sources@.len() ==> kind_rank(#[trigger] sources@[k].suggestion) > 0,
        scores@.len() == sources@.len(),
        keys@.len() == sources@.len(),
        forall|k: int|
            0 <= k < sources@.len() ==> #[trigger] scores@[k] == source_score(
                source_views(sources@)[k],
                query,
            ),
        forall|k: int|
            0 <= k < sources@.len() ==> (#[trigger] keys@[k])@ == source_key(
                source_views(sources@)[k],
            ),
    ensures
        candidates_descending(merged@),
        forall|i: int|
            0 <= i < merged@.len() ==> candidate_ok(#[trigger] merged@[i], source_views(sources@), query),
        candidates_distinct(merged@),
        forall|k: int|
            #[trigger] scores_above_zero(source_views(sources@), query, k)
                ==> merged@.len() > 0 && merged@[0].score >= source_score(source_views(sources@)[k], query),
        positive_count(source_views(sources@), query) <= MAX_SCORED ==> forall|j: int|
            0 <= j < merged@.len() ==> best_of_its_key(#[trigger] merged@[j], source_views(sources@), query),
        forall|j: int|
            0 <= j < merged@.len() ==> top_score_of_its_key(#[trigger] merged@[j], source_views(sources@), query),
        forall|k: int|
            #[trigger] scores_above_zero(source_views(sources@), query, k) ==> (exists|a: int|
                0 <= a < merged@.len() && (#[trigger] merged@[a]).naked@ == source_key(
                    source_views(sources@)[k],
                ) && merged@[a].score >= source_score(source_views(sources@)[k], query))
                || count_scoring_at_least(
                source_views(sources@),
                query,
                source_score(source_views(sources@)[k], query),
            ) > MAX_SCORED,
{
    let ghost sv = source_views(sources@);
    let mut sorted = sort_candidates(sources, scores, keys, Ghost(query));
    let ghost full = sorted@;
    keep_best(&mut sorted, Ghost(sv), Ghost(query));
    let ghost cut = sorted@;
    let merged = merge_duplicates(sorted, Ghost(sv), Ghost(query));
    proof {
        assert forall|jx: int| 0 <= jx < merged@.len() implies top_score_of_its_key(
            #[trigger] merged@[jx],
            sv,
            query,
        ) by {
            let x = merged@[jx];
            assert forall|k: int|
                0 <= k < sv.len() && source_score(sv[k], query) > 0 && source_key(#[trigger] sv[k])
                    == x.naked@ implies source_score(sv[k], query) <= x.score by {
                assert(scores_above_zero(sv, query, k));
                let j = choose|j: int| 0 <= j < full.len() && (#[trigger] full[j]).source == k;
                assert(candidate_ok(full[j], sv, query));
                if j < cut.len() {
                    assert(cut[j] == full[j]);
                    let a = choose|a: int|
                        0 <= a < merged@.len() && (#[trigger] merged@[a]).naked@ == (
                        #[trigger] cut[j]).naked@ && merged@[a].score >= cut[j].score && kind_rank(
                            merged@[a].suggestion,
                        ) >= kind_rank(cut[j].suggestion);
                    if a < jx {
                        assert(merged@[a].naked@ != merged@[jx].naked@);
                    } else if a > jx {
                        assert(merged@[jx].naked@ != merged@[a].naked@);
                    }
                } else {
                    let last = cut.len() - 1;
                    assert(cut[last] == full[last]);
                    assert(full[last].score >= full[j].score);
                }
            }
        }
        assert forall|k: int| #[trigger] scores_above_zero(sv, query, k) implies (exists|a: int|
            0 <= a < merged@.len() && (#[trigger] merged@[a]).naked@ == source_key(sv[k])
                && merged@[a].score >= source_score(sv[k], query)) || count_scoring_at_least(
            sv,
            query,
            source_score(sv[k], query),
        ) > MAX_SCORED by {
            let j = choose|j: int| 0 <= j < full.len() && (#[trigger] full[j]).source == k;
            assert(candidate_ok(full[j], sv, query));
            if j < cut.len() {
                assert(cut[j] == full[j]);
                let a = choose|a: int|
                    0 <= a < merged@.len() && (#[trigger] merged@[a]).naked@ == (
                    #[trigger] cut[j]).naked@ && merged@[a].score >= cut[j].score && kind_rank(
                        merged@[a].suggestion,
                    ) >= kind_rank(cut[j].suggestion);
                assert(merged@[a].naked@ == source_key(sv[k]));
            } else {
                let v = full.take(j + 1);
                assert forall|i: int| 0 <= i < v.len() implies (#[trigger] v[i]).score
                    == source_score(sv[v[i].source as int], query) && v[i].score >= full[j].score
                    && candidate_ok(v[i], sv, query) by {
                    assert(v[i] == full[i]);
                }
                assert(sources_distinct(v));
                lemma_distinct_sources_count(v, sv, query, full[j].score as int);
            }
        }
        if positive_count(sv, query) <= MAX_SCORED {
            assert(cut =~= full);
            lemma_merged_best(full, merged@, sv, query);
        }
    }
    merged
}

/// Sorts, cuts to the best 100, merges duplicates and splits off the top
/// hits.
#[verifier::rlimit(50)]
fn rank_candidates(
    sources: &Vec<LocalSource>,
    scores: &Vec<i64>,
    keys: &Vec<String>,
    Ghost(query): Ghost<Seq<char>>,
) -> (r: (Vec<Candidate>, Vec<Candidate>))
    requires
        forall|k: int| 0 <= k < sources@.len() ==> kind_rank(#[trigger] sources@[k].suggestion) > 0,
        scores@.len() == sources@.len(),
        keys@.len() == sources@.len(),
        forall|k: int|
            0 <= k < sources@.len() ==> #[trigger] scores@[k] == source_score(
                source_views(sources@)[k],
                query,
            ),
        forall|k: int|
            0 <= k < sources@.len() ==> (#[trigger] keys@[k])@ == source_key(
                source_views(sources@)[k],
            ),
    ensures
        r.0@.len() <= MAX_TOP_HITS,
        candidates_descending(r.0@),
        candidates_descending(r.1@),
        forall|i: int| 0 <= i < r.0@.len() ==> candidate_ok(#[trigger] r.0@[i], source_views(sources@), query),
        forall|i: int| 0 <= i < r.1@.len() ==> candidate_ok(#[trigger] r.1@[i], source_views(sources@), query),
        candidates_distinct(r.0@),
        candidates_distinct(r.1@),
        forall|a: int, b: int|
            0 <= a < r.0@.len() && 0 <= b < r.1@.len() ==> (#[trigger] r.0@[a]).naked@ != (
            #[trigger] r.1@[b]).naked@,
        forall|k: int|
            #[trigger] scores_above_zero(source_views(sources@), query, k)
                ==> (r.0@.len() > 0 && r.0@[0].score >= source_score(source_views(sources@)[k], query))
                || (r.1@.len() > 0 && r.1@[0].score >= source_score(source_views(sources@)[k], query)),
        forall|i: int|
            0 <= i < r.0@.len() ==> top_score_of_its_key(#[trigger] r.0@[i], source_views(sources@), query),
        forall|i: int|
            0 <= i < r.1@.len() ==> top_score_of_its_key(#[trigger] r.1@[i], source_views(sources@), query),
        positive_count(source_views(sources@), query) <= MAX_SCORED ==> forall|i: int|
            0 <= i < r.0@.len() ==> best_of_its_key(#[trigger] r.0@[i], source_views(sources@), query),
        positive_count(source_views(sources@), query) <= MAX_SCORED ==> forall|i: int|
            0 <= i < r.1@.len() ==> best_of_its_key(#[trigger] r.1@[i], source_views(sources@), query),
        forall|a: int|
            0 <= a < r.0@.len() ==> may_be_top_hit(
                source_views(sources@),
                query,
                (#[trigger] r.0@[a]).source as int,
            ),
        forall|b: int|
            0 <= b < r.1@.len() && may_be_top_hit(
                source_views(sources@),
                query,
                (#[trigger] r.1@[b]).source as int,
            ) ==> r.0@.len() == MAX_TOP_HITS && forall|a: int|
                0 <= a < r.0@.len() ==> (#[trigger] r.0@[a]).score >= r.1@[b].score,
        forall|k: int|
            #[trigger] scores_above_zero(source_views(sources@), query, k) ==> (exists|a: int|
                0 <= a < r.0@.len() && (#[trigger] r.0@[a]).naked@ == source_key(
                    source_views(sources@)[k],
                )) || (exists|b: int|
                0 <= b < r.1@.len() && (#[trigger] r.1@[b]).naked@ == source_key(
                    source_views(sources@)[k],
                ) && r.1@[b].score >= source_score(source_views(sources@)[k], query))
                || count_scoring_at_least(
                source_views(sources@),
                query,
                source_score(source_views(sources@)[k], query),
            ) > MAX_SCORED,
{
    let ghost sv = source_views(sources@);
    let merged = cut_and_merge(sources, scores, keys, Ghost(query));
    let ghost mv = merged@;
    let r = select_top_hits(merged, sources, scores, keys, Ghost(query));
    proof {
        assert forall|k: int| #[trigger] scores_above_zero(sv, query, k) implies (exists|a: int|
            0 <= a < r.0@.len() && (#[trigger] r.0@[a]).naked@ == source_key(sv[k])) || (exists|
            b: int,
        |
            0 <= b < r.1@.len() && (#[trigger] r.1@[b]).naked@ == source_key(sv[k])
                && r.1@[b].score >= source_score(sv[k], query)) || count_scoring_at_least(
            sv,
            query,
            source_score(sv[k], query),
        ) > MAX_SCORED by {
            if exists|a: int|
                0 <= a < mv.len() && (#[trigger] mv[a]).naked@ == source_key(sv[k]) && mv[a].score
                    >= source_score(sv[k], query) {
                let a = choose|a: int|
                    0 <= a < mv.len() && (#[trigger] mv[a]).naked@ == source_key(sv[k])
                        && mv[a].score >= source_score(sv[k], query);
                if exists|t: int| 0 <= t < r.0@.len() && #[trigger] r.0@[t] == mv[a] {
                    let t = choose|t: int| 0 <= t < r.0@.len() && #[trigger] r.0@[t] == mv[a];
                    assert(r.0@[t].naked@ == source_key(sv[k]));
                } else {
                    let b = choose|b: int| 0 <= b < r.1@.len() && #[trigger] r.1@[b] == mv[a];
                    assert(r.1@[b].naked@ == source_key(sv[k]));
                }
            }
        }
        assert forall|i: int| 0 <= i < r.0@.len() implies candidate_ok(#[trigger] r.0@[i], sv, query)
            && top_score_of_its_key(r.0@[i], sv, query) by {
            let j = choose|j: int| 0 <= j < mv.len() && #[trigger] r.0@[i] == mv[j];
        }
        assert forall|i: int| 0 <= i < r.1@.len() implies candidate_ok(#[trigger] r.1@[i], sv, query)
            && top_score_of_its_key(r.1@[i], sv, query) by {
            let j = choose|j: int| 0 <= j < mv.len() && #[trigger] r.1@[i] == mv[j];
        }
        if positive_count(sv, query) <= MAX_SCORED {
            assert forall|i: int| 0 <= i < r.0@.len() implies best_of_its_key(
                #[trigger] r.0@[i],
                sv,
                query,
            ) by {
                let j = choose|j: int| 0 <= j < mv.len() && #[trigger] r.0@[i] == mv[j];
            }
            assert forall|i: int| 0 <= i < r.1@.len() implies best_of_its_key(
                #[trigger] r.1@[i],
                sv,
                query,
            ) by {
                let j = choose|j: int| 0 <= j < mv.len() && #[trigger] r.1@[i] == mv[j];
            }
        }
    }
    r
}

/// The naked string of an API entry; see [`api_key`].
fn api_entry_key(e: &ApiEntry) -> (r: String)
    ensures
        r@ == api_key((e.suggestion, opt_url_view(e.url))),
{
    match &e.url {
        Some(u) => naked_string(u),
        None => String::from_str(trimmed_path(without_www(e.suggestion.phrase.as_str()))),
    }
}

/// The API results as suggestions, without those whose naked string is
/// that of a top hit.
fn collect_ddg(
    api: &Vec<ApiEntry>,
    top: &Vec<Candidate>,
    Ghost(top_keys): Ghost<Seq<Seq<char>>>,
) -> (r: Vec<SuggestionOutput>)
    requires
        top_keys.len() == top@.len(),
        forall|j: int| 0 <= j < top@.len() ==> #[trigger] top_keys[j] == top@[j].naked@,
    ensures
        r@ == ddg_candidates(api_views(api@), top_keys),
{
    let ghost av = api_views(api@);
    let mut r: Vec<SuggestionOutput> = Vec::new();
    for i in 0..api.len()
        invariant
            av == api_views(api@),
            top_keys.len() == top@.len(),
            forall|j: int| 0 <= j < top@.len() ==> #[trigger] top_keys[j] == top@[j].naked@,
            r@ == ddg_candidates(av.take(i as int), top_keys),
    {
        let e = &api[i];
        assert(av.take(i + 1).drop_last() =~= av.take(i as int));
        assert(av.take(i + 1).last() == (e.suggestion, opt_url_view(e.url)));
        let key = api_entry_key(e);
        let found = find_naked(top, &key);
        assert(found is Some <==> top_keys.contains(key@)) by {
            if top_keys.contains(key@) {
                let j = choose|j: int| 0 <= j < top_keys.len() && top_keys[j] == key@;
                assert(top@[j].naked@ == key@);
            }
            if let Some(k) = found {
                assert(top_keys[k as int] == key@);
            }
        }
        if found.is_none() {
            let s = match e.suggestion.is_nav {
                Some(true) => SuggestionOutput::Website { url: e.suggestion.phrase.clone() },
                _ => SuggestionOutput::Phrase { phrase: e.suggestion.phrase.clone() },
            };
            assert(s == api_suggestion(e.suggestion));
            r.push(s);
        }
    }
    assert(av.take(av.len() as int) =~= av);
    r
}

/// Cuts the local and search suggestions to the platform's limits.
fn apply_limits(
    platform: Platform,
    top_len: usize,
    local: &mut Vec<Candidate>,
    ddg: &mut Vec<SuggestionOutput>,
)
    requires
        top_len <= MAX_TOP_HITS,
    ensures
        final(ddg)@ == old(ddg)@.take(final(ddg)@.len() as int),
        final(local)@ == old(local)@.take(final(local)@.len() as int),
        final(local)@.len() <= old(local)@.len(),
        final(ddg)@.len() <= old(ddg)@.len(),
        old(local)@.len() > 0 ==> final(local)@.len() > 0,
        platform == Platform::Mobile ==> final(ddg)@.len() == min_of(
            old(ddg)@.len() as int,
            MIN_DDG_SLOTS as int,
        ),
        platform == Platform::Desktop ==> final(ddg)@.len() == min_of(
            old(ddg)@.len() as int,
            DESKTOP_MAX_SUGGESTIONS - top_len - final(local)@.len(),
        ),
        platform == Platform::Desktop ==> final(ddg)@.len() >= min_of(
            old(ddg)@.len() as int,
            MIN_DDG_SLOTS as int,
        ),
        platform == Platform::Desktop ==> top_len + final(ddg)@.len() + final(local)@.len()
            <= DESKTOP_MAX_SUGGESTIONS,
        final(local)@.len() < old(local)@.len() ==> platform == Platform::Desktop
            && final(local)@.len() == DESKTOP_MAX_SUGGESTIONS - top_len - min_of(
            old(ddg)@.len() as int,
            MIN_DDG_SLOTS as int,
        ),
{
    let reserve = if ddg.len() < MIN_DDG_SLOTS {
        ddg.len()
    } else {
        MIN_DDG_SLOTS
    };
    match platform {
        Platform::Mobile => {
            ddg.truncate(MIN_DDG_SLOTS);
        },
        Platform::Desktop => {
            local.truncate(DESKTOP_MAX_SUGGESTIONS - top_len - reserve);
            let room = DESKTOP_MAX_SUGGESTIONS - top_len - local.len();
            ddg.truncate(room);
        },
    }
    assert(final(ddg)@ =~= old(ddg)@.take(final(ddg)@.len() as int));
    assert(final(local)@ =~= old(local)@.take(final(local)@.len() as int));
}

/// The suggestions that a list of candidates carries.
spec fn suggestions_of(v: Seq<Candidate>) -> Seq<SuggestionOutput> {
    v.map_values(|c: Candidate| c.suggestion)
}

/// The sources that a list of candidates stands for.
spec fn sources_of(v: Seq<Candidate>) -> Seq<int> {
    v.map_values(|c: Candidate| c.source as int)
}

/// The naked strings of a list of candidates.
spec fn nakeds_of(v: Seq<Candidate>) -> Seq<Seq<char>> {
    v.map_values(|c: Candidate| c.naked@)
}

/// Hands out the suggestions of the candidates, in order.
fn into_suggestions(v: Vec<Candidate>) -> (r: Vec<SuggestionOutput>)
    ensures
        r@ == suggestions_of(v@),
{
    let ghost all = v@;
    let mut rest = v;
    let mut r: Vec<SuggestionOutput> = Vec::new();
    while rest.len() > 0
        invariant
            r@.len() + rest@.len() == all.len(),
            rest@ == all.skip(r@.len() as int),
            r@ == suggestions_of(all.take(r@.len() as int)),
        decreases rest@.len(),
    {
        let ghost k = r@.len() as int;
        let c = rest.remove(0);
        assert(c == all[k]);
        r.push(c.suggestion);
        assert(rest@ =~= all.skip(k + 1));
        assert(r@ =~= suggestions_of(all.take(k + 1)));
    }
    assert(all.take(all.len() as int) =~= all);
    r
}

proof fn lemma_score_of_with_score(s: SuggestionOutput, score: i64)
    requires
        kind_rank(s) > 0,
    ensures
        suggestion_score(with_score(s, score as int)) == score,
        kind_rank(with_score(s, score as int)) == kind_rank(s),
{
}

/// The candidates kept as top hits and local suggestions trace the output
/// to its sources.
proof fn lemma_traced(top: Seq<Candidate>, local: Seq<Candidate>, sv: Seq<SourceView>, query: Seq<char>)
    requires
        top.len() <= MAX_TOP_HITS,
        forall|i: int| 0 <= i < top.len() ==> candidate_ok(#[trigger] top[i], sv, query),
        forall|i: int| 0 <= i < local.len() ==> candidate_ok(#[trigger] local[i], sv, query),
        candidates_distinct(top),
        candidates_distinct(local),
        forall|a: int, b: int|
            0 <= a < top.len() && 0 <= b < local.len() ==> (#[trigger] top[a]).naked@ != (
            #[trigger] local[b]).naked@,
        forall|i: int| 0 <= i < top.len() ==> top_score_of_its_key(#[trigger] top[i], sv, query),
        forall|i: int| 0 <= i < local.len() ==> top_score_of_its_key(#[trigger] local[i], sv, query),
        positive_count(sv, query) <= MAX_SCORED ==> forall|i: int|
            0 <= i < top.len() ==> best_of_its_key(#[trigger] top[i], sv, query),
        positive_count(sv, query) <= MAX_SCORED ==> forall|i: int|
            0 <= i < local.len() ==> best_of_its_key(#[trigger] local[i], sv, query),
        forall|a: int| 0 <= a < top.len() ==> may_be_top_hit(sv, query, (#[trigger] top[a]).source as int),
        forall|b: int|
            0 <= b < local.len() && may_be_top_hit(sv, query, (#[trigger] local[b]).source as int)
                ==> top.len() == MAX_TOP_HITS && forall|a: int|
                0 <= a < top.len() ==> (#[trigger] top[a]).score >= local[b].score,
    ensures
        traced_to_sources(
            suggestions_of(top) + suggestions_of(local),
            top.len() as int,
            sources_of(top) + sources_of(local),
            sv,
            query,
        ),
        top_keys(sources_of(top) + sources_of(local), top.len() as int, sv) == nakeds_of(top),
{
    let all = suggestions_of(top) + suggestions_of(local);
    let ks = sources_of(top) + sources_of(local);
    let t = top.len() as int;
    let cands = top + local;
    assert forall|i: int| 0 <= i < all.len() implies #[trigger] all[i] == cands[i].suggestion && ks[i]
        == cands[i].source as int && candidate_ok(cands[i], sv, query) by {
        if i < t {
        } else {
            assert(cands[i] == local[i - t]);
        }
    }
    assert(ks.len() == all.len());
    assert forall|i: int| 0 <= i < all.len() implies 0 <= #[trigger] ks[i] < sv.len() by {
        assert(all[i] == cands[i].suggestion);
    }
    assert forall|i: int|
        0 <= i < all.len() implies source_score(sv[ks[i]], query) > 0 && #[trigger] all[i]
        == with_score(sv[ks[i]].suggestion, suggestion_score(all[i])) by {
        let c = cands[i];
        lemma_score_of_with_score(sv[c.source as int].suggestion, c.score);
    }
    assert forall|i: int| 0 <= i < all.len() implies #[trigger] score_of_some_source(
        sv,
        query,
        source_key(sv[ks[i]]),
        suggestion_score(all[i]),
    ) by {
        let c = cands[i];
        lemma_score_of_with_score(sv[c.source as int].suggestion, c.score);
        let k = choose|k: int|
            0 <= k < sv.len() && #[trigger] key_and_score(sv[k], query) == (c.naked@, c.score as int);
    }
    assert forall|a: int, b: int| 0 <= a < b < all.len() implies source_key(sv[#[trigger] ks[a]])
        != source_key(sv[#[trigger] ks[b]]) by {
        assert(all[a] == cands[a].suggestion);
        assert(all[b] == cands[b].suggestion);
        if b < t {
        } else if a < t {
            assert(cands[b] == local[b - t]);
        } else {
            assert(cands[a] == local[a - t]);
            assert(cands[b] == local[b - t]);
        }
    }
    assert forall|i: int, k: int|
        0 <= i < all.len() && 0 <= k < sv.len() && source_score(sv[k], query) > 0 && source_key(
            #[trigger] sv[k],
        ) == source_key(sv[ks[i]]) implies source_score(sv[k], query) <= suggestion_score(
        #[trigger] all[i],
    ) by {
        let c = cands[i];
        assert(all[i] == c.suggestion);
        if i >= t {
            assert(c == local[i - t]);
        }
        assert(top_score_of_its_key(c, sv, query));
        lemma_score_of_with_score(sv[c.source as int].suggestion, c.score);
    }
    if positive_count(sv, query) <= MAX_SCORED {
        assert forall|i: int, k: int|
            0 <= i < all.len() && 0 <= k < sv.len() && source_score(sv[k], query) > 0 && source_key(
                #[trigger] sv[k],
            ) == source_key(sv[ks[i]]) implies kind_rank(sv[k].suggestion) <= kind_rank(
            #[trigger] all[i],
        ) by {
            let c = cands[i];
            assert(all[i] == c.suggestion);
            if i >= t {
                assert(c == local[i - t]);
            }
            assert(best_of_its_key(c, sv, query));
            lemma_score_of_with_score(sv[c.source as int].suggestion, c.score);
        }
    }
    assert forall|a: int| 0 <= a < t implies may_be_top_hit(sv, query, #[trigger] ks[a]) by {
        assert(all[a] == cands[a].suggestion);
    }
    assert forall|b: int|
        t <= b < all.len() && may_be_top_hit(sv, query, #[trigger] ks[b]) implies t == MAX_TOP_HITS
        && forall|a: int| 0 <= a < t ==> suggestion_score(#[trigger] all[a]) >= suggestion_score(all[b]) by {
        assert(all[b] == cands[b].suggestion);
        assert(cands[b] == local[b - t]);
        lemma_score_of_with_score(sv[local[b - t].source as int].suggestion, local[b - t].score);
        assert forall|a: int| 0 <= a < t implies suggestion_score(#[trigger] all[a]) >= suggestion_score(
            all[b],
        ) by {
            assert(all[a] == cands[a].suggestion);
            lemma_score_of_with_score(sv[top[a].source as int].suggestion, top[a].score);
        }
    }
    assert(top_keys(ks, t, sv) =~= nakeds_of(top));
}

proof fn lemma_scores_descending(v: Seq<Candidate>, sv: Seq<SourceView>, query: Seq<char>)
    requires
        candidates_descending(v),
        forall|i: int| 0 <= i < v.len() ==> candidate_ok(#[trigger] v[i], sv, query),
    ensures
        scores_descending(suggestions_of(v)),
        forall|i: int|
            0 <= i < v.len() ==> suggestion_score(#[trigger] suggestions_of(v)[i]) == v[i].score,
{
    assert forall|i: int| 0 <= i < v.len() implies suggestion_score(
        #[trigger] suggestions_of(v)[i],
    ) == v[i].score by {
        assert(candidate_ok(v[i], sv, query));
        lemma_score_of_with_score(sv[v[i].source as int].suggestion, v[i].score);
    }
    assert forall|a: int, b: int| 0 <= a < b < suggestions_of(v).len() implies suggestion_score(
        #[trigger] suggestions_of(v)[a],
    ) >= suggestion_score(#[trigger] suggestions_of(v)[b]) by {
        assert(v[a].score >= v[b].score);
        assert(suggestion_score(suggestions_of(v)[a]) == v[a].score);
        assert(suggestion_score(suggestions_of(v)[b]) == v[b].score);
    }
}

proof fn lemma_shown_or_crowded_out(
    platform: Platform,
    out: ProcessOutput,
    tv: Seq<Candidate>,
    all_local: Seq<Candidate>,
    lv: Seq<Candidate>,
    sv: Seq<SourceView>,
    q: Seq<char>,
    k: int,
    ddg_candidate_count: int,
)
    requires
        scores_above_zero(sv, q, k),
        out.top_hits@ == suggestions_of(tv),
        out.local_suggestions@ == suggestions_of(lv),
        lv.len() <= all_local.len(),
        forall|i: int| 0 <= i < lv.len() ==> #[trigger] lv[i] == all_local[i],
        candidates_descending(all_local),
        forall|i: int| 0 <= i < tv.len() ==> candidate_ok(#[trigger] tv[i], sv, q),
        forall|i: int| 0 <= i < all_local.len() ==> candidate_ok(#[trigger] all_local[i], sv, q),
        lv.len() < all_local.len() ==> platform == Platform::Desktop && lv.len()
            == DESKTOP_MAX_SUGGESTIONS - tv.len() - min_of(ddg_candidate_count, MIN_DDG_SLOTS as int),
        (exists|a: int| 0 <= a < tv.len() && (#[trigger] tv[a]).naked@ == source_key(sv[k])) || (
        exists|b: int|
            0 <= b < all_local.len() && (#[trigger] all_local[b]).naked@ == source_key(sv[k])
                && all_local[b].score >= source_score(sv[k], q)) || count_scoring_at_least(
            sv,
            q,
            source_score(sv[k], q),
        ) > MAX_SCORED,
    ensures
        shown_or_crowded_out(
            platform,
            out,
            sources_of(tv) + sources_of(lv),
            sv,
            q,
            k,
            ddg_candidate_count,
        ),
{
    let ks = sources_of(tv) + sources_of(lv);
    let t = tv.len() as int;
    if exists|a: int| 0 <= a < tv.len() && (#[trigger] tv[a]).naked@ == source_key(sv[k]) {
        let a = choose|a: int| 0 <= a < tv.len() && (#[trigger] tv[a]).naked@ == source_key(sv[k]);
        assert(candidate_ok(tv[a], sv, q));
        assert(ks[a] == tv[a].source as int);
    } else if exists|b: int|
        0 <= b < all_local.len() && (#[trigger] all_local[b]).naked@ == source_key(sv[k])
            && all_local[b].score >= source_score(sv[k], q) {
        let b = choose|b: int|
            0 <= b < all_local.len() && (#[trigger] all_local[b]).naked@ == source_key(sv[k])
                && all_local[b].score >= source_score(sv[k], q);
        assert(candidate_ok(all_local[b], sv, q));
        if b < lv.len() {
            assert(lv[b] == all_local[b]);
            assert(ks[t + b] == lv[b].source as int);
        } else {
            let local = out.local_suggestions@;
            assert forall|j: int| 0 <= j < local.len() implies suggestion_score(#[trigger] local[j])
                >= source_score(sv[k], q) by {
                assert(lv[j] == all_local[j]);
                assert(candidate_ok(all_local[j], sv, q));
                lemma_score_of_with_score(sv[lv[j].source as int].suggestion, lv[j].score);
                assert(local[j] == lv[j].suggestion);
            }
        }
    }
}

/// Ranks the local sources against a query that is already trimmed and
/// lowercased, with `tokens` its words, and adds the search-API entries;
/// see [`ranked_output`] for what comes out.
#[verifier::rlimit(50)]
pub fn rank_suggestions(
    platform: Platform,
    query: &str,
    tokens: &[&str],
    sources: &Vec<LocalSource>,
    api: &Vec<ApiEntry>,
) -> (out: ProcessOutput)
    requires
        str_views(tokens@) == split_whitespace(query@),
        forall|k: int| 0 <= k < sources@.len() ==> kind_rank(#[trigger] sources@[k].suggestion) > 0,
    ensures
        ranked_output(platform, query@, source_views(sources@), api_views(api@), out),
{
    let ghost sv = source_views(sources@);
    let ghost q = query@;
    let (scores, keys) = score_each(sources, query, tokens);
    let (top, mut local) = rank_candidates(sources, &scores, &keys, Ghost(q));
    let ghost top_keys_seq = nakeds_of(top@);
    let mut ddg = collect_ddg(api, &top, Ghost(top_keys_seq));
    let ghost all_local = local@;
    let ghost candidates = ddg@;
    apply_limits(platform, top.len(), &mut local, &mut ddg);
    let ghost tv = top@;
    let ghost lv = local@;
    proof {
        assert forall|i: int| 0 <= i < lv.len() implies #[trigger] lv[i] == all_local[i] by {}
        assert(candidates_descending(lv));
        assert(candidates_distinct(lv));
        lemma_traced(tv, lv, sv, q);
        lemma_scores_descending(tv, sv, q);
        lemma_scores_descending(lv, sv, q);
        let all = suggestions_of(tv) + suggestions_of(lv);
        assert forall|k: int| #[trigger] scores_above_zero(sv, q, k) implies exists|j: int|
            0 <= j < all.len() && suggestion_score(#[trigger] all[j]) >= source_score(sv[k], q) by {
            if tv.len() > 0 && tv[0].score >= source_score(sv[k], q) {
                assert(all[0] == suggestions_of(tv)[0]);
            } else {
                assert(all_local.len() > 0);
                assert(lv.len() > 0);
                assert(all[tv.len() as int] == suggestions_of(lv)[0]);
            }
        }
    }
    let top_hits = into_suggestions(top);
    let local_suggestions = into_suggestions(local);
    let out = ProcessOutput {
        top_hits,
        ddg_suggestions: ddg,
        local_suggestions,
        can_be_autocompleted: false,
    };
    proof {
        let ks = sources_of(tv) + sources_of(lv);
        assert(out.top_hits@ + out.local_suggestions@ == suggestions_of(tv) + suggestions_of(lv));
        assert(within_platform_limits(platform, out));
        assert(scores_descending(out.top_hits@));
        assert(scores_descending(out.local_suggestions@));
        assert(traced_to_sources(out.top_hits@ + out.local_suggestions@, out.top_hits@.len() as int, ks, sv, q));
        assert(ddg_candidates(api_views(api@), top_keys(ks, out.top_hits@.len() as int, sv)) == candidates);
        assert(ddg_within_slots(platform, out, candidates));
        assert forall|k: int| #[trigger] scores_above_zero(sv, q, k) implies shown_or_crowded_out(
            platform,
            out,
            ks,
            sv,
            q,
            k,
            candidates.len() as int,
        ) by {
            lemma_shown_or_crowded_out(platform, out, tv, all_local, lv, sv, q, k, candidates.len() as int);
        }
        assert(ranked_by(platform, q, sv, api_views(api@), out, ks));
    }
    out
}

/// A bookmark as a source: a bookmark suggestion with its title and URL.
pub open spec fn bookmark_source(b: BookmarkInput) -> SourceView {
    SourceView {
        suggestion: SuggestionOutput::Bookmark {
            title: b.title,
            url: b.url,
            is_favorite: b.is_favorite,
            score: 0,
        },
        url: parsed_url(b.url@),
        title: Some(b.title@),
        visits: 0,
    }
}

/// A history entry as a source, with its visit count.
pub open spec fn history_source(h: HistoryInput) -> SourceView {
    SourceView {
        suggestion: SuggestionOutput::HistoryEntry { title: h.title, url: h.url, score: 0 },
        url: parsed_url(h.url@),
        title: opt_chars(h.title),
        visits: h.number_of_visits as int,
    }
}

/// An open tab as a source.
pub open spec fn tab_source(t: OpenTabInput) -> SourceView {
    SourceView {
        suggestion: SuggestionOutput::OpenTab {
            title: t.title,
            url: t.url,
            tab_id: t.tab_id,
            score: 0,
        },
        url: parsed_url(t.url@),
        title: Some(t.title@),
        visits: 0,
    }
}

/// An internal page as a source.
pub open spec fn page_source(p: InternalPageInput) -> SourceView {
    SourceView {
        suggestion: SuggestionOutput::InternalPage { title: p.title, url: p.url, score: 0 },
        url: parsed_url(p.url@),
        title: Some(p.title@),
        visits: 0,
    }
}

/// The local sources of the input in order: bookmarks, history entries,
/// open tabs, internal pages.
pub open spec fn local_sources(input: ProcessInput) -> Seq<SourceView> {
    input.bookmarks@.map_values(|b: BookmarkInput| bookmark_source(b)) + input.history@.map_values(
        |h: HistoryInput| history_source(h),
    ) + input.open_tabs@.map_values(|t: OpenTabInput| tab_source(t))
        + input.internal_pages@.map_values(|p: InternalPageInput| page_source(p))
}

/// The API results of the input, none where there are none.
pub open spec fn api_results(input: ProcessInput) -> Seq<ApiSuggestion> {
    match input.api_result {
        Some(v) => v@,
        None => seq![],
    }
}

/// The API results of the input, each with its phrase parsed as a URL.
pub open spec fn api_entries(input: ProcessInput) -> Seq<ApiView> {
    api_results(input).map_values(|a: ApiSuggestion| (a, parsed_url(a.phrase@)))
}

proof fn lemma_source_views_push(v: Seq<LocalSource>, s: LocalSource)
    ensures
        source_views(v.push(s)) == source_views(v).push(s@),
{
    assert(source_views(v.push(s)) =~= source_views(v).push(s@));
}

/// Appends one source to the list.
fn push_source(v: &mut Vec<LocalSource>, s: LocalSource)
    requires
        kind_rank(s.suggestion) > 0,
        forall|k: int| 0 <= k < old(v)@.len() ==> kind_rank(#[trigger] old(v)@[k].suggestion) > 0,
    ensures
        source_views(final(v)@) == source_views(old(v)@).push(s@),
        forall|k: int| 0 <= k < final(v)@.len() ==> kind_rank(#[trigger] final(v)@[k].suggestion) > 0,
{
    proof {
        lemma_source_views_push(v@, s);
    }
    v.push(s);
}

/// The local sources of the input, in the order of [`local_sources`], with
/// their URLs parsed.
fn collect_sources(input: &ProcessInput) -> (v: Vec<LocalSource>)
    ensures
        source_views(v@) == local_sources(*input),
        forall|k: int| 0 <= k < v@.len() ==> kind_rank(#[trigger] v@[k].suggestion) > 0,
{
    let ghost bs = input.bookmarks@.map_values(|b: BookmarkInput| bookmark_source(b));
    let ghost hs = input.history@.map_values(|h: HistoryInput| history_source(h));
    let ghost ts = input.open_tabs@.map_values(|t: OpenTabInput| tab_source(t));
    let ghost ps = input.internal_pages@.map_values(|p: InternalPageInput| page_source(p));
    let mut v: Vec<LocalSource> = Vec::new();
    for i in 0..input.bookmarks.len()
        invariant
            bs == input.bookmarks@.map_values(|b: BookmarkInput| bookmark_source(b)),
            source_views(v@) == bs.take(i as int),
            forall|k: int| 0 <= k < v@.len() ==> kind_rank(#[trigger] v@[k].suggestion) > 0,
    {
        let b = &input.bookmarks[i];
        let s = LocalSource {
            suggestion: SuggestionOutput::Bookmark {
                title: b.title.clone(),
                url: b.url.clone(),
                is_favorite: b.is_favorite,
                score: 0,
            },
            url: UrlParts::parse(b.url.as_str()),
            title: Some(b.title.clone()),
            visits: 0,
        };
        assert(s@ == bs[i as int]);
        push_source(&mut v, s);
        assert(source_views(v@) =~= bs.take(i + 1));
    }
    assert(bs.take(bs.len() as int) =~= bs);
    for i in 0..input.history.len()
        invariant
            hs == input.history@.map_values(|h: HistoryInput| history_source(h)),
            source_views(v@) == bs + hs.take(i as int),
            forall|k: int| 0 <= k < v@.len() ==> kind_rank(#[trigger] v@[k].suggestion) > 0,
    {
        let h = &input.history[i];
        let s = LocalSource {
            suggestion: SuggestionOutput::HistoryEntry {
                title: copy_opt(&h.title),
                url: h.url.clone(),
                score: 0,
            },
            url: UrlParts::parse(h.url.as_str()),
            title: copy_opt(&h.title),
            visits: h.number_of_visits,
        };
        assert(s@ == hs[i as int]);
        push_source(&mut v, s);
        assert(source_views(v@) =~= bs + hs.take(i + 1));
    }
    assert(hs.take(hs.len() as int) =~= hs);
    for i in 0..input.open_tabs.len()
        invariant
            ts == input.open_tabs@.map_values(|t: OpenTabInput| tab_source(t)),
            source_views(v@) == bs + hs + ts.take(i as int),
            forall|k: int| 0 <= k < v@.len() ==> kind_rank(#[trigger] v@[k].suggestion) > 0,
    {
        let t = &input.open_tabs[i];
        let s = LocalSource {
            suggestion: SuggestionOutput::OpenTab {
                title: t.title.clone(),
                url: t.url.clone(),
                tab_id: copy_opt(&t.tab_id),
                score: 0,
            },
            url: UrlParts::parse(t.url.as_str()),
            title: Some(t.title.clone()),
            visits: 0,
        };
        assert(s@ == ts[i as int]);
        push_source(&mut v, s);
        assert(source_views(v@) =~= bs + hs + ts.take(i + 1));
    }
    assert(ts.take(ts.len() as int) =~= ts);
    for i in 0..input.internal_pages.len()
        invariant
            ps == input.internal_pages@.map_values(|p: InternalPageInput| page_source(p)),
            source_views(v@) == bs + hs + ts + ps.take(i as int),
            forall|k: int| 0 <= k < v@.len() ==> kind_rank(#[trigger] v@[k].suggestion) > 0,
    {
        let p = &input.internal_pages[i];
        let s = LocalSource {
            suggestion: SuggestionOutput::InternalPage {
                title: p.title.clone(),
                url: p.url.clone(),
                score: 0,
            },
            url: UrlParts::parse(p.url.as_str()),
            title: Some(p.title.clone()),
            visits: 0,
        };
        assert(s@ == ps[i as int]);
        push_source(&mut v, s);
        assert(source_views(v@) =~= bs + hs + ts + ps.take(i + 1));
    }
    assert(ps.take(ps.len() as int) =~= ps);
    v
}

/// The API results of the input with their phrases parsed as URLs.
fn collect_api(input: &ProcessInput) -> (v: Vec<ApiEntry>)
    ensures
        api_views(v@) == api_entries(*input),
{
    let mut v: Vec<ApiEntry> = Vec::new();
    match &input.api_result {
        None => {
            assert(api_views(v@) =~= api_entries(*input));
        },
        Some(results) => {
            let ghost all = api_entries(*input);
            for i in 0..results.len()
                invariant
                    all == results@.map_values(|a: ApiSuggestion| (a, parsed_url(a.phrase@))),
                    api_views(v@) == all.take(i as int),
            {
                let a = &results[i];
                let e = ApiEntry {
                    suggestion: ApiSuggestion { phrase: a.phrase.clone(), is_nav: a.is_nav },
                    url: UrlParts::parse(a.phrase.as_str()),
                };
                let ghost before = v@;
                v.push(e);
                assert(api_views(v@) =~= api_views(before).push((e.suggestion, opt_url_view(e.url))));
                assert(api_views(v@) =~= all.take(i + 1));
            }
            assert(all.take(all.len() as int) =~= all);
        },
    }
    v
}

/// Builds the suggestions for a query.
///
/// The query is trimmed and lowercased, and split into words. Every
/// bookmark, history entry, open tab and internal page is scored against
/// it; those that score 0 are dropped, the rest sorted by descending score
/// and the best 100 kept. Sources with the same naked URL merge into one
/// suggestion that keeps the highest score and the kind of highest quality
/// (bookmark, open tab, internal page, history entry). Up to 2 top hits
/// are picked in score order; a history entry qualifies only with a root
/// URL or with more than 3 visits over its duplicates. The API results
/// become search suggestions, without those whose naked string is that of
/// a top hit. On mobile at most 5 search suggestions are kept; on desktop
/// at most 12 suggestions in all, with up to 5 slots kept for search
/// suggestions ahead of the local ones. No further limit by query length
/// applies: the documented pipeline names one but gives no rule for it.
pub fn process(input: &ProcessInput) -> (out: ProcessOutput)
    ensures
        ranked_output(
            input.platform,
            scoring_query(input.query@),
            local_sources(*input),
            api_entries(*input),
            out,
        ),
{
    let trimmed = trim(input.query.as_str());
    let lowered = str_to_lowercase(trimmed);
    let query = lowered.as_str();
    let tokens = tokenize(query);
    let sources = collect_sources(input);
    let api = collect_api(input);
    rank_suggestions(input.platform, query, tokens.as_slice(), &sources, &api)
}

proof fn lemma_ddg_candidates_come_from_api(api: Seq<ApiView>, keys: Seq<Seq<char>>)
    ensures
        forall|d: int|
            #![trigger ddg_candidates(api, keys)[d]]
            0 <= d < ddg_candidates(api, keys).len() ==> exists|j: int|
                0 <= j < api.len() && ddg_candidates(api, keys)[d] == api_suggestion(
                    (#[trigger] api[j]).0,
                ) && !keys.contains(api_key(api[j])),
    decreases api.len(),
{
    if api.len() > 0 {
        let rest = api.drop_last();
        lemma_ddg_candidates_come_from_api(rest, keys);
        let r = ddg_candidates(rest, keys);
        let c = ddg_candidates(api, keys);
        assert forall|d: int| #![trigger c[d]] 0 <= d < c.len() implies exists|j: int|
            0 <= j < api.len() && c[d] == api_suggestion((#[trigger] api[j]).0) && !keys.contains(
                api_key(api[j]),
            ) by {
            if d < r.len() {
                assert(c[d] == r[d]);
                let j = choose|j: int|
                    0 <= j < rest.len() && r[d] == api_suggestion((#[trigger] rest[j]).0)
                        && !keys.contains(api_key(rest[j]));
                assert(api[j] == rest[j]);
            } else {
                assert(api[api.len() - 1] == api.last());
            }
        }
    }
}

/// No search-API suggestion repeats a top hit: each one is an API result,
/// in the form its navigational flag gives, whose naked string is that of
/// no top hit.
pub proof fn lemma_search_suggestions_skip_top_hits(
    platform: Platform,
    query: Seq<char>,
    sources: Seq<SourceView>,
    api: Seq<ApiView>,
    out: ProcessOutput,
)
    requires
        ranked_output(platform, query, sources, api, out),
    ensures
        exists|ks: Seq<int>|
            #![trigger traced_to_sources(out.top_hits@ + out.local_suggestions@, out.top_hits@.len() as int, ks, sources, query)]
            traced_to_sources(
                out.top_hits@ + out.local_suggestions@,
                out.top_hits@.len() as int,
                ks,
                sources,
                query,
            ) && forall|d: int|
                #![trigger out.ddg_suggestions@[d]]
                0 <= d < out.ddg_suggestions@.len() ==> exists|j: int|
                    0 <= j < api.len() && out.ddg_suggestions@[d] == api_suggestion(
                        (#[trigger] api[j]).0,
                    ) && forall|t: int|
                        0 <= t < out.top_hits@.len() ==> api_key(api[j]) != source_key(
                            sources[#[trigger] ks[t]],
                        ),
{
    let ks = choose|ks: Seq<int>| #[trigger] ranked_by(platform, query, sources, api, out, ks);
    let top_len = out.top_hits@.len() as int;
    let keys = top_keys(ks, top_len, sources);
    let c = ddg_candidates(api, keys);
    lemma_ddg_candidates_come_from_api(api, keys);
    assert forall|d: int| #![trigger out.ddg_suggestions@[d]] 0 <= d < out.ddg_suggestions@.len()
        implies exists|j: int|
        0 <= j < api.len() && out.ddg_suggestions@[d] == api_suggestion((#[trigger] api[j]).0)
            && forall|t: int|
            0 <= t < out.top_hits@.len() ==> api_key(api[j]) != source_key(sources[#[trigger] ks[t]]) by {
        assert(out.ddg_suggestions@[d] == c[d]);
        let j = choose|j: int|
            0 <= j < api.len() && c[d] == api_suggestion((#[trigger] api[j]).0) && !keys.contains(
                api_key(api[j]),
            );
        assert forall|t: int| 0 <= t < out.top_hits@.len() implies api_key(api[j]) != source_key(
            sources[#[trigger] ks[t]],
        ) by {
            assert(keys[t] == source_key(sources[ks[t]]));
        }
    }
}

proof fn lemma_group_visits_append(a: Seq<SourceView>, b: Seq<SourceView>, query: Seq<char>, key: Seq<char>)
    ensures
        group_visits(a + b, query, key) == group_visits(a, query, key) + group_visits(b, query, key),
    decreases b.len(),
{
    if b.len() == 0 {
        assert(a + b =~= a);
    } else {
        assert((a + b).drop_last() =~= a + b.drop_last());
        assert((a + b).last() == b.last());
        lemma_group_visits_append(a, b.drop_last(), query, key);
    }
}

proof fn lemma_group_visits_nonneg(s: Seq<SourceView>, query: Seq<char>, key: Seq<char>)
    requires
        forall|k: int| 0 <= k < s.len() ==> (#[trigger] s[k]).visits >= 0,
    ensures
        group_visits(s, query, key) >= 0,
    decreases s.len(),
{
    if s.len() > 0 {
        assert forall|k: int| 0 <= k < s.drop_last().len() implies (#[trigger] s.drop_last()[k]).visits
            >= 0 by {
            assert(s.drop_last()[k] == s[k]);
        }
        lemma_group_visits_nonneg(s.drop_last(), query, key);
    }
}

/// Duplicates pool their visits for top-hit eligibility: where visit
/// counts are not negative, two sources that score above 0 with the same
/// naked string count their visits together, and the visits of a source
/// that scores 0 or has another naked string do not count.
pub proof fn lemma_duplicates_pool_their_visits(
    sources: Seq<SourceView>,
    query: Seq<char>,
    i: int,
    j: int,
)
    requires
        0 <= i < j < sources.len(),
        forall|k: int| 0 <= k < sources.len() ==> (#[trigger] sources[k]).visits >= 0,
        source_score(sources[i], query) > 0,
        source_score(sources[j], query) > 0,
        source_key(sources[i]) == source_key(sources[j]),
    ensures
        group_visits(sources, query, source_key(sources[i])) >= sources[i].visits
            + sources[j].visits,
        sources[i].visits + sources[j].visits > 3 ==> may_be_top_hit(sources, query, i)
            && may_be_top_hit(sources, query, j),
{
    let key = source_key(sources[i]);
    let a = sources.take(i);
    let b = sources.subrange(i + 1, j);
    let c = sources.skip(j + 1);
    assert(sources =~= a + seq![sources[i]] + b + seq![sources[j]] + c);
    lemma_group_visits_append(a + seq![sources[i]] + b + seq![sources[j]], c, query, key);
    lemma_group_visits_append(a + seq![sources[i]] + b, seq![sources[j]], query, key);
    lemma_group_visits_append(a + seq![sources[i]], b, query, key);
    lemma_group_visits_append(a, seq![sources[i]], query, key);
    let si = seq![sources[i]];
    let sj = seq![sources[j]];
    assert(si.drop_last() =~= Seq::<SourceView>::empty());
    assert(sj.drop_last() =~= Seq::<SourceView>::empty());
    assert(si.last() == sources[i]);
    assert(sj.last() == sources[j]);
    assert(group_visits(Seq::<SourceView>::empty(), query, key) == 0);
    assert(group_visits(si, query, key) == sources[i].visits);
    assert(group_visits(sj, query, key) == sources[j].visits);
    assert forall|k: int| 0 <= k < a.len() implies (#[trigger] a[k]).visits >= 0 by {
        assert(a[k] == sources[k]);
    }
    assert forall|k: int| 0 <= k < b.len() implies (#[trigger] b[k]).visits >= 0 by {
        assert(b[k] == sources[i + 1 + k]);
    }
    assert forall|k: int| 0 <= k < c.len() implies (#[trigger] c[k]).visits >= 0 by {
        assert(c[k] == sources[j + 1 + k]);
    }
    lemma_group_visits_nonneg(a, query, key);
    lemma_group_visits_nonneg(b, query, key);
    lemma_group_visits_nonneg(c, query, key);
    assert(group_visits(sources, query, key) == group_visits(a, query, key) + sources[i].visits
        + group_visits(b, query, key) + sources[j].visits + group_visits(c, query, key));
    assert(source_key(sources[j]) == key);
}

} // verus!
