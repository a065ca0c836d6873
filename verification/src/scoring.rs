//! Scoring of a suggestion against the user's query.

use vstd::prelude::*;

use crate::text::{
    chars_of, contains, has_prefix, has_substring, starts_with, str_to_lowercase,
    unicode_lowercase,
};
use crate::url_utils::{
    boundary_starts_with, boundary_starts_with_chars, domain_of, host_without_www, is_root,
    is_root_url, naked_of, naked_string, str_views, UrlParts, UrlView,
};

verus! {

/// The characters of an optional string slice.
pub open spec fn opt_str_chars(o: Option<&str>) -> Option<Seq<char>> {
    match o {
        Some(t) => Some(t@),
        None => None,
    }
}

/// The lowercased title, empty where there is no title.
pub open spec fn lowered_title(title: Option<Seq<char>>) -> Seq<char> {
    match title {
        Some(t) => unicode_lowercase(t),
        None => seq![],
    }
}

/// ` ` followed by `p`: `p` at the start of a word inside a title.
pub open spec fn spaced(p: Seq<char>) -> Seq<char> {
    seq![' '] + p
}

/// A query token is found in the title (at a word boundary) or at the start
/// of the naked URL.
pub open spec fn token_found(title: Seq<char>, naked: Seq<char>, token: Seq<char>) -> bool {
    ||| boundary_starts_with(title, token)
    ||| contains(title, spaced(token))
    ||| starts_with(naked, token)
}

/// Every query token is found.
pub open spec fn all_tokens_found(
    title: Seq<char>,
    naked: Seq<char>,
    tokens: Seq<Seq<char>>,
) -> bool {
    forall|i: int| 0 <= i < tokens.len() ==> token_found(title, naked, #[trigger] tokens[i])
}

/// The bonus that a root URL earns on the two strongest match types.
pub open spec fn root_bonus(url: UrlView) -> int {
    if is_root_url(url) {
        2000
    } else {
        0
    }
}

/// The base points of the first match type that succeeds, in priority
/// order: URL prefix (300), title prefix at a word boundary (200), domain
/// contains a query of more than 2 characters (150), a title word starts
/// with such a query (100), all of several tokens found (10, plus 70 when
/// the first token starts the URL, else 50 when it starts the title).
pub open spec fn base_points(
    title: Seq<char>,
    url: UrlView,
    query: Seq<char>,
    tokens: Seq<Seq<char>>,
) -> int {
    let naked = naked_of(url);
    if starts_with(naked, query) {
        300 + root_bonus(url)
    } else if boundary_starts_with(title, query) {
        200 + root_bonus(url)
    } else if query.len() > 2 && contains(domain_of(url), query) {
        150
    } else if query.len() > 2 && contains(title, spaced(query)) {
        100
    } else if tokens.len() > 1 && all_tokens_found(title, naked, tokens) {
        if starts_with(naked, tokens[0]) {
            80
        } else if boundary_starts_with(title, tokens[0]) {
            60
        } else {
            10
        }
    } else {
        0
    }
}

/// A non-zero base score shifted left by 10 bits, plus the visit count;
/// no match scores 0.
pub open spec fn final_score(base: int, visit_count: int) -> int {
    if base > 0 {
        base * 1024 + visit_count
    } else {
        0
    }
}

/// The score of a suggestion.
pub open spec fn score_of(
    title: Option<Seq<char>>,
    url: UrlView,
    visit_count: int,
    lowercased_query: Seq<char>,
    query_tokens: Seq<Seq<char>>,
) -> int {
    final_score(
        base_points(lowered_title(title), url, lowercased_query, query_tokens),
        visit_count,
    )
}

/// The score fits in an `i64`.
pub open spec fn score_fits(
    title: Option<Seq<char>>,
    url: UrlView,
    visit_count: int,
    lowercased_query: Seq<char>,
    query_tokens: Seq<Seq<char>>,
) -> bool {
    score_of(title, url, visit_count, lowercased_query, query_tokens) <= i64::MAX
}

/// ` ` followed by the characters of `p`.
fn spaced_chars(p: &[char]) -> (v: Vec<char>)
    ensures
        v@ == spaced(p@),
{
    let mut v: Vec<char> = Vec::new();
    v.push(' ');
    let mut i: usize = 0;
    while i < p.len()
        invariant
            i <= p@.len(),
            v@ == spaced(p@.take(i as int)),
        decreases p.len() - i,
    {
        v.push(p[i]);
        i = i + 1;
        assert(v@ =~= spaced(p@.take(i as int)));
    }
    assert(p@.take(p@.len() as int) =~= p@);
    v
}

/// Whether one query token is found; see [`token_found`].
fn token_is_found(title: &[char], naked: &[char], token: &str) -> (r: bool)
    ensures
        r == token_found(title@, naked@, token@),
{
    let tc = chars_of(token);
    if boundary_starts_with_chars(title, tc.as_slice()) {
        return true;
    }
    let pattern = spaced_chars(tc.as_slice());
    has_substring(title, pattern.as_slice()) || has_prefix(naked, tc.as_slice())
}

/// The base points of a suggestion, given its lowercased title as
/// characters; see [`base_points`].
#[verifier::loop_isolation(false)]
pub fn base_score(title: &[char], url: &UrlParts, query: &[char], query_tokens: &[&str]) -> (b: i64)
    ensures
        b == base_points(title@, url@, query@, str_views(query_tokens@)),
{
    let naked_s = naked_string(url);
    let naked = chars_of(naked_s.as_str());
    let bonus: i64 = if is_root(url) {
        2000
    } else {
        0
    };
    if has_prefix(naked.as_slice(), query) {
        return 300 + bonus;
    }
    if boundary_starts_with_chars(title, query) {
        return 200 + bonus;
    }
    if query.len() > 2 {
        let domain = host_without_www(url);
        let dc = chars_of(domain.as_str());
        if has_substring(dc.as_slice(), query) {
            return 150;
        }
        let pattern = spaced_chars(query);
        if has_substring(title, pattern.as_slice()) {
            return 100;
        }
    }
    if query_tokens.len() <= 1 {
        return 0;
    }
    let ghost tokens = str_views(query_tokens@);
    let mut i: usize = 0;
    while i < query_tokens.len()
        invariant
            tokens == str_views(query_tokens@),
            i <= query_tokens@.len(),
            naked@ == naked_of(url@),
            forall|j: int| 0 <= j < i ==> token_found(title@, naked@, #[trigger] tokens[j]),
        decreases query_tokens.len() - i,
    {
        if !token_is_found(title, naked.as_slice(), query_tokens[i]) {
            assert(!token_found(title@, naked@, tokens[i as int]));
            return 0;
        }
        i = i + 1;
    }
    let first = chars_of(query_tokens[0]);
    assert(tokens[0] == query_tokens@[0]@);
    if has_prefix(naked.as_slice(), first.as_slice()) {
        80
    } else if boundary_starts_with_chars(title, first.as_slice()) {
        60
    } else {
        10
    }
}

/// Scores a suggestion based on query match against title and URL.
pub fn score(
    title: Option<&str>,
    url: &UrlParts,
    visit_count: i64,
    lowercased_query: &str,
    query_tokens: &[&str],
) -> (s: i64)
    requires
        score_fits(
            opt_str_chars(title),
            url@,
            visit_count as int,
            lowercased_query@,
            str_views(query_tokens@),
        ),
    ensures
        s == score_of(
            opt_str_chars(title),
            url@,
            visit_count as int,
            lowercased_query@,
            str_views(query_tokens@),
        ),
{
    let lowered = match title {
        Some(t) => str_to_lowercase(t),
        None => String::new(),
    };
    let tc = chars_of(lowered.as_str());
    let qc = chars_of(lowercased_query);
    let base = base_score(tc.as_slice(), url, qc.as_slice(), query_tokens);
    if base > 0 {
        base * 1024 + visit_count
    } else {
        0
    }
}

/// Scores a suggestion as [`score`] does, or gives `None` where the score
/// would not fit in an `i64` (a visit count within 2,355,200 of `i64::MAX`
/// on a matching suggestion), where [`score`] may not be called.
pub fn checked_score(
    title: Option<&str>,
    url: &UrlParts,
    visit_count: i64,
    lowercased_query: &str,
    query_tokens: &[&str],
) -> (r: Option<i64>)
    ensures
        r is Some <==> score_fits(
            opt_str_chars(title),
            url@,
            visit_count as int,
            lowercased_query@,
            str_views(query_tokens@),
        ),
        r matches Some(s) ==> s == score_of(
            opt_str_chars(title),
            url@,
            visit_count as int,
            lowercased_query@,
            str_views(query_tokens@),
        ),
{
    let lowered = match title {
        Some(t) => str_to_lowercase(t),
        None => String::new(),
    };
    let tc = chars_of(lowered.as_str());
    let qc = chars_of(lowercased_query);
    let base = base_score(tc.as_slice(), url, qc.as_slice(), query_tokens);
    proof {
        lemma_base_points_values(tc@, url@, qc@, str_views(query_tokens@));
    }
    if base > 0 && visit_count > i64::MAX - base * 1024 {
        None
    } else {
        Some(score(title, url, visit_count, lowercased_query, query_tokens))
    }
}

/// The base points are one of the values that the match types and bonuses
/// can add up to.
pub proof fn lemma_base_points_values(
    title: Seq<char>,
    url: UrlView,
    query: Seq<char>,
    tokens: Seq<Seq<char>>,
)
    ensures
        ({
            let b = base_points(title, url, query, tokens);
            b == 0 || b == 10 || b == 60 || b == 80 || b == 100 || b == 150 || b == 200 || b
                == 300 || b == 2200 || b == 2300
        }),
{
}

/// Suggestions that do not match at all score 0; a match with a
/// non-negative visit count scores above 0.
pub proof fn lemma_no_match_scores_zero(
    title: Option<Seq<char>>,
    url: UrlView,
    visit_count: int,
    query: Seq<char>,
    tokens: Seq<Seq<char>>,
)
    ensures
        base_points(lowered_title(title), url, query, tokens) == 0 ==> score_of(
            title,
            url,
            visit_count,
            query,
            tokens,
        ) == 0,
        base_points(lowered_title(title), url, query, tokens) > 0 && visit_count >= 0 ==> score_of(
            title,
            url,
            visit_count,
            query,
            tokens,
        ) > 0,
{
}

/// Among suggestions of the same match, more visits score higher.
pub proof fn lemma_more_visits_score_higher(
    title: Option<Seq<char>>,
    url: UrlView,
    fewer: int,
    more: int,
    query: Seq<char>,
    tokens: Seq<Seq<char>>,
)
    requires
        base_points(lowered_title(title), url, query, tokens) > 0,
        fewer < more,
    ensures
        score_of(title, url, fewer, query, tokens) < score_of(title, url, more, query, tokens),
{
}

/// The match type dominates the ranking: with visit counts below 1024, a
/// higher base score always gives the higher final score.
pub proof fn lemma_match_type_dominates(base1: int, visits1: int, base2: int, visits2: int)
    requires
        base1 > base2 >= 0,
        0 <= visits1 < 1024,
        0 <= visits2 < 1024,
    ensures
        final_score(base1, visits1) > final_score(base2, visits2),
{
}

/// A URL-prefix match takes priority over every other match type.
pub proof fn lemma_url_prefix_match_wins(
    title: Seq<char>,
    url: UrlView,
    query: Seq<char>,
    tokens: Seq<Seq<char>>,
)
    requires
        starts_with(naked_of(url), query),
    ensures
        base_points(title, url, query, tokens) == 300 + root_bonus(url),
{
}

/// Each match type earns at least its own base points, whatever the lower
/// types would have given: title prefix 200, domain 150, title word 100.
pub proof fn lemma_match_tiers(
    title: Seq<char>,
    url: UrlView,
    query: Seq<char>,
    tokens: Seq<Seq<char>>,
)
    ensures
        boundary_starts_with(title, query) ==> base_points(title, url, query, tokens) >= 200,
        query.len() > 2 && contains(domain_of(url), query) ==> base_points(
            title,
            url,
            query,
            tokens,
        ) >= 150,
        query.len() > 2 && contains(title, spaced(query)) ==> base_points(
            title,
            url,
            query,
            tokens,
        ) >= 100,
{
}

/// The +2000 root bonus goes only to root URLs, and only on a URL-prefix
/// or title-prefix match.
pub proof fn lemma_root_bonus_only_on_prefix_matches(
    title: Seq<char>,
    url: UrlView,
    query: Seq<char>,
    tokens: Seq<Seq<char>>,
)
    requires
        base_points(title, url, query, tokens) >= 2000,
    ensures
        is_root_url(url),
        starts_with(naked_of(url), query) || boundary_starts_with(title, query),
{
}

/// Each base value comes only from its own match: 300 (+2000) from a URL
/// prefix; 200 (+2000) from a title prefix at a word boundary; 150 from a
/// domain that contains a query of more than 2 characters; 100 from a
/// title that holds a space followed by such a query; 10, 60 or 80 only
/// from several tokens that are each found in the title (at a word
/// boundary or after a space) or at the start of the naked URL, 80 when
/// the first token starts the URL and 60 when it starts the title.
pub proof fn lemma_base_value_has_its_match(
    title: Seq<char>,
    url: UrlView,
    query: Seq<char>,
    tokens: Seq<Seq<char>>,
)
    ensures
        ({
            let b = base_points(title, url, query, tokens);
            let naked = naked_of(url);
            &&& (b == 300 || b == 2300) ==> starts_with(naked, query)
            &&& (b == 200 || b == 2200) ==> !starts_with(naked, query) && boundary_starts_with(
                title,
                query,
            )
            &&& b == 150 ==> query.len() > 2 && contains(domain_of(url), query)
            &&& b == 100 ==> query.len() > 2 && contains(title, seq![' '] + query)
            &&& (b == 10 || b == 60 || b == 80) ==> tokens.len() > 1 && forall|i: int|
                0 <= i < tokens.len() ==> boundary_starts_with(title, #[trigger] tokens[i])
                    || contains(title, seq![' '] + tokens[i]) || starts_with(naked, tokens[i])
            &&& b == 80 ==> starts_with(naked, tokens[0])
            &&& b == 60 ==> !starts_with(naked, tokens[0]) && boundary_starts_with(
                title,
                tokens[0],
            )
        }),
{
    let b = base_points(title, url, query, tokens);
    if b == 10 || b == 60 || b == 80 {
        assert forall|i: int| 0 <= i < tokens.len() implies boundary_starts_with(
            title,
            #[trigger] tokens[i],
        ) || contains(title, seq![' '] + tokens[i]) || starts_with(naked_of(url), tokens[i]) by {
            assert(token_found(title, naked_of(url), tokens[i]));
            assert(spaced(tokens[i]) == seq![' '] + tokens[i]);
        }
    }
    if b == 100 {
        assert(spaced(query) == seq![' '] + query);
    }
}

/// A query of several tokens that matches no stronger type scores 0 as
/// soon as one token is found neither in the lowercased title (at a word
/// boundary or after a space) nor at the start of the naked URL.
pub proof fn lemma_missing_token_scores_zero(
    title: Option<Seq<char>>,
    url: UrlView,
    visit_count: int,
    query: Seq<char>,
    tokens: Seq<Seq<char>>,
    k: int,
)
    requires
        0 <= k < tokens.len(),
        !boundary_starts_with(lowered_title(title), tokens[k]),
        !contains(lowered_title(title), seq![' '] + tokens[k]),
        !starts_with(naked_of(url), tokens[k]),
        !starts_with(naked_of(url), query),
        !boundary_starts_with(lowered_title(title), query),
        !(query.len() > 2 && contains(domain_of(url), query)),
        !(query.len() > 2 && contains(lowered_title(title), seq![' '] + query)),
    ensures
        base_points(lowered_title(title), url, query, tokens) == 0,
        score_of(title, url, visit_count, query, tokens) == 0,
{
    let t = lowered_title(title);
    assert(spaced(query) == seq![' '] + query);
    assert(spaced(tokens[k]) == seq![' '] + tokens[k]);
    assert(!token_found(t, naked_of(url), tokens[k]));
    assert(!all_tokens_found(t, naked_of(url), tokens));
}

/// A single-token query that occurs in the title only inside a word, and
/// matches no stronger type, scores 0.
pub proof fn lemma_query_inside_a_word_scores_zero(
    title: Option<Seq<char>>,
    url: UrlView,
    visit_count: int,
    query: Seq<char>,
    tokens: Seq<Seq<char>>,
)
    requires
        tokens.len() <= 1,
        !contains(lowered_title(title), seq![' '] + query),
        !starts_with(naked_of(url), query),
        !boundary_starts_with(lowered_title(title), query),
        !(query.len() > 2 && contains(domain_of(url), query)),
    ensures
        base_points(lowered_title(title), url, query, tokens) == 0,
        score_of(title, url, visit_count, query, tokens) == 0,
{
    assert(spaced(query) == seq![' '] + query);
}

/// A query of several tokens, each found in the title (at a word boundary
/// or after a space) or at the start of the naked URL, that matches no
/// stronger type earns 80 when the first token starts the naked URL, else
/// 60 when it starts the title at a word boundary, else 10.
pub proof fn lemma_all_tokens_found_scores(
    title: Seq<char>,
    url: UrlView,
    query: Seq<char>,
    tokens: Seq<Seq<char>>,
)
    requires
        tokens.len() > 1,
        forall|i: int|
            0 <= i < tokens.len() ==> boundary_starts_with(title, #[trigger] tokens[i]) || contains(
                title,
                seq![' '] + tokens[i],
            ) || starts_with(naked_of(url), tokens[i]),
        !starts_with(naked_of(url), query),
        !boundary_starts_with(title, query),
        !(query.len() > 2 && contains(domain_of(url), query)),
        !(query.len() > 2 && contains(title, seq![' '] + query)),
    ensures
        base_points(title, url, query, tokens) == if starts_with(naked_of(url), tokens[0]) {
            80int
        } else if boundary_starts_with(title, tokens[0]) {
            60int
        } else {
            10int
        },
{
    assert(spaced(query) == seq![' '] + query);
    assert forall|i: int| 0 <= i < tokens.len() implies token_found(
        title,
        naked_of(url),
        #[trigger] tokens[i],
    ) by {
        assert(spaced(tokens[i]) == seq![' '] + tokens[i]);
    }
}

} // verus!
