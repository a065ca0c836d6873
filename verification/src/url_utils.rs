//! Query tokenisation, title matching and URL normalisation.

use vstd::prelude::*;

use crate::text::{
    char_is_alphanumeric, char_is_whitespace, chars_of, has_prefix, matches_at, occurs_at, starts_with,
    unicode_alphanumeric, unicode_whitespace,
};

verus! {

/// Length of the run of non-whitespace characters at the start of `s`.
pub open spec fn word_len(s: Seq<char>) -> nat
    decreases s.len(),
{
    if s.len() == 0 || unicode_whitespace(s[0]) {
        0
    } else {
        1 + word_len(s.drop_first())
    }
}

/// A leading word is never longer than the string.
pub proof fn lemma_word_len_bound(s: Seq<char>)
    ensures
        word_len(s) <= s.len(),
    decreases s.len(),
{
    if s.len() > 0 && !unicode_whitespace(s[0]) {
        lemma_word_len_bound(s.drop_first());
    }
}

/// The maximal runs of non-whitespace characters of `s`, in order.
pub open spec fn split_whitespace(s: Seq<char>) -> Seq<Seq<char>>
    decreases s.len(),
{
    if s.len() == 0 {
        seq![]
    } else if unicode_whitespace(s[0]) {
        split_whitespace(s.drop_first())
    } else {
        proof {
            lemma_word_len_bound(s);
        }
        seq![s.take(word_len(s) as int)] + split_whitespace(s.skip(word_len(s) as int))
    }
}

/// The views of a sequence of string slices.
pub open spec fn str_views(v: Seq<&str>) -> Seq<Seq<char>> {
    v.map_values(|t: &str| t@)
}

/// Splits a query string into tokens by whitespace.
pub fn tokenize(s: &str) -> (tokens: Vec<&str>)
    ensures
        str_views(tokens@) == split_whitespace(s@),
{
    let cs = chars_of(s);
    let n = cs.len();
    let mut tokens: Vec<&str> = Vec::new();
    let mut i: usize = 0;
    assert(s@.skip(0) =~= s@);
    while i < n
        invariant
            n == s@.len(),
            cs@ == s@,
            i <= n,
            split_whitespace(s@) == str_views(tokens@) + split_whitespace(s@.skip(i as int)),
        decreases n - i,
    {
        assert(s@.skip(i as int).drop_first() =~= s@.skip(i + 1));
        if char_is_whitespace(cs[i]) {
            i = i + 1;
        } else {
            let mut j: usize = i + 1;
            while j < n && !char_is_whitespace(cs[j])
                invariant
                    n == s@.len(),
                    cs@ == s@,
                    i < j <= n,
                    word_len(s@.skip(i as int)) == (j - i) + word_len(s@.skip(j as int)),
                decreases n - j,
            {
                assert(s@.skip(j as int).drop_first() =~= s@.skip(j + 1));
                j = j + 1;
            }
            assert(word_len(s@.skip(j as int)) == 0);
            let word = s.substring_char(i, j);
            let ghost before = tokens@;
            tokens.push(word);
            assert(str_views(tokens@) =~= str_views(before).push(word@));
            assert(s@.skip(i as int).take(j - i) =~= word@);
            assert(s@.skip(i as int).skip(j - i) =~= s@.skip(j as int));
            i = j;
        }
    }
    assert(split_whitespace(s@.skip(n as int)) =~= seq![]);
    assert(str_views(tokens@) + seq![] =~= str_views(tokens@));
    tokens
}

/// `s` without its leading characters that are not alphanumeric.
pub open spec fn trim_leading_non_alphanumeric(s: Seq<char>) -> Seq<char>
    decreases s.len(),
{
    if s.len() > 0 && !unicode_alphanumeric(s[0]) {
        trim_leading_non_alphanumeric(s.drop_first())
    } else {
        s
    }
}

/// `s` starts with `prefix`, either as it stands or once its leading
/// non-alphanumeric characters are dropped.
pub open spec fn boundary_starts_with(s: Seq<char>, prefix: Seq<char>) -> bool {
    starts_with(s, prefix) || starts_with(trim_leading_non_alphanumeric(s), prefix)
}

proof fn lemma_occurs_at_is_prefix_of_skip(s: Seq<char>, p: Seq<char>, k: int)
    requires
        0 <= k <= s.len(),
    ensures
        occurs_at(s, p, k) == starts_with(s.skip(k), p),
{
    if k + p.len() <= s.len() {
        assert(s.skip(k).subrange(0, p.len() as int) =~= s.subrange(k, k + p.len()));
    }
}

/// Boundary prefix test on characters; see [`leading_boundary_starts_with`].
pub fn boundary_starts_with_chars(s: &[char], prefix: &[char]) -> (r: bool)
    ensures
        r == boundary_starts_with(s@, prefix@),
{
    if matches_at(s, 0, prefix) {
        return true;
    }
    let n = s.len();
    let mut k: usize = 0;
    assert(s@.skip(0) =~= s@);
    while k < n && !char_is_alphanumeric(s[k])
        invariant
            n == s@.len(),
            k <= n,
            trim_leading_non_alphanumeric(s@) == trim_leading_non_alphanumeric(s@.skip(k as int)),
        decreases n - k,
    {
        assert(s@.skip(k as int).drop_first() =~= s@.skip(k + 1));
        k = k + 1;
    }
    assert(trim_leading_non_alphanumeric(s@.skip(k as int)) == s@.skip(k as int));
    proof {
        lemma_occurs_at_is_prefix_of_skip(s@, prefix@, k as int);
    }
    matches_at(s, k, prefix)
}

/// Checks if `s` starts with `prefix`, or starts with `prefix` after trimming
/// leading non-alphanumeric characters.
pub fn leading_boundary_starts_with(s: &str, prefix: &str) -> (r: bool)
    ensures
        r == boundary_starts_with(s@, prefix@),
{
    let cs = chars_of(s);
    let ps = chars_of(prefix);
    boundary_starts_with_chars(cs.as_slice(), ps.as_slice())
}

/// The components of a parsed absolute URL that ranking reads, as the
/// `url` crate reports them.
#[derive(Clone, Debug, PartialEq, Eq)]
pub struct UrlParts {
    /// The host (domain or IP address), if the URL has one.
    pub host: Option<String>,
    /// The path; for URLs with a host it starts with `/`.
    pub path: String,
    /// The query string without its `?`, if any.
    pub query: Option<String>,
    /// The fragment without its `#`, if any.
    pub fragment: Option<String>,
    /// The username, typically empty.
    pub username: String,
    /// The password, if any.
    pub password: Option<String>,
}

/// The mathematical model of [`UrlParts`]: each component as characters.
pub struct UrlView {
    pub host: Option<Seq<char>>,
    pub path: Seq<char>,
    pub query: Option<Seq<char>>,
    pub fragment: Option<Seq<char>>,
    pub username: Seq<char>,
    pub password: Option<Seq<char>>,
}

/// The characters of an optional string.
pub open spec fn opt_chars(o: Option<String>) -> Option<Seq<char>> {
    match o {
        Some(t) => Some(t@),
        None => None,
    }
}

impl View for UrlParts {
    type V = UrlView;

    open spec fn view(&self) -> UrlView {
        UrlView {
            host: opt_chars(self.host),
            path: self.path@,
            query: opt_chars(self.query),
            fragment: opt_chars(self.fragment),
            username: self.username@,
            password: opt_chars(self.password),
        }
    }
}

/// The model of an optional [`UrlParts`].
pub open spec fn opt_url_view(o: Option<UrlParts>) -> Option<UrlView> {
    match o {
        Some(u) => Some(u@),
        None => None,
    }
}

/// What `url::Url::parse` makes of a string, read back component by
/// component: `None` where it refuses the string.
pub uninterp spec fn parsed_url(input: Seq<char>) -> Option<UrlView>;

/// The host, if any, holds no `/`.
pub open spec fn host_has_no_slash(u: UrlView) -> bool {
    forall|j: int| 0 <= j < host_or_empty(u).len() ==> #[trigger] host_or_empty(u)[j] != '/'
}

/// Calls `url::Url::parse` and reads `host_str`, `path`, `query`,
/// `fragment`, `username` and `password` of the result. The contract claims
/// that the outcome is a function of the input characters alone, and that
/// a host holds no `/`: the host parser refuses `/` in opaque hosts and
/// through the `idna` URL deny list in domains, and IP addresses have none.
#[verifier::external_body]
fn url_parse_parts(input: &str) -> (r: Option<UrlParts>)
    ensures
        opt_url_view(r) == parsed_url(input@),
        r matches Some(u) ==> host_has_no_slash(u@),
{
    match url::Url::parse(input) {
        Ok(u) => Some(UrlParts {
            host: u.host_str().map(String::from),
            path: String::from(u.path()),
            query: u.query().map(String::from),
            fragment: u.fragment().map(String::from),
            username: String::from(u.username()),
            password: u.password().map(String::from),
        }),
        Err(_) => None,
    }
}

impl UrlParts {
    /// Parses an absolute URL; `None` where the `url` crate refuses it.
    pub fn parse(input: &str) -> (r: Option<UrlParts>)
        ensures
            opt_url_view(r) == parsed_url(input@),
            r matches Some(u) ==> host_has_no_slash(u@),
    {
        url_parse_parts(input)
    }
}

/// The characters `www.`.
pub open spec fn www_prefix() -> Seq<char> {
    seq!['w', 'w', 'w', '.']
}

/// `h` without a leading `www.`.
pub open spec fn strip_www(h: Seq<char>) -> Seq<char> {
    if starts_with(h, www_prefix()) {
        h.skip(4)
    } else {
        h
    }
}

/// The host of a URL, empty where it has none.
pub open spec fn host_or_empty(u: UrlView) -> Seq<char> {
    match u.host {
        Some(h) => h,
        None => seq![],
    }
}

/// The host of a URL without a leading `www.`.
pub open spec fn domain_of(u: UrlView) -> Seq<char> {
    strip_www(host_or_empty(u))
}

/// `s` without its trailing `/` characters.
pub open spec fn trim_trailing_slashes(s: Seq<char>) -> Seq<char>
    decreases s.len(),
{
    if s.len() > 0 && s.last() == '/' {
        trim_trailing_slashes(s.drop_last())
    } else {
        s
    }
}

/// The path as it appears in the naked string: nothing for `/`, otherwise
/// the path without trailing slashes.
pub open spec fn naked_path(p: Seq<char>) -> Seq<char> {
    if p == seq!['/'] {
        seq![]
    } else {
        trim_trailing_slashes(p)
    }
}

/// `sep` followed by the component, or nothing where there is none.
pub open spec fn marked_component(sep: char, o: Option<Seq<char>>) -> Seq<char> {
    match o {
        Some(c) => seq![sep] + c,
        None => seq![],
    }
}

/// The URL without scheme, `www.` prefix and trailing `/`, keeping query
/// and fragment.
pub open spec fn naked_of(u: UrlView) -> Seq<char> {
    domain_of(u) + naked_path(u.path) + marked_component('?', u.query) + marked_component(
        '#',
        u.fragment,
    )
}

/// A root URL: no meaningful path, no query, fragment or credentials.
pub open spec fn is_root_url(u: UrlView) -> bool {
    &&& (u.path.len() == 0 || u.path == seq!['/'])
    &&& u.query is None
    &&& u.fragment is None
    &&& u.username.len() == 0
    &&& u.password is None
}

/// The characters of `s` after a leading `www.`, or all of them.
pub(crate) fn without_www(s: &str) -> (r: &str)
    ensures
        r@ == strip_www(s@),
{
    let cs = chars_of(s);
    let www = vec!['w', 'w', 'w', '.'];
    assert(www@ =~= www_prefix());
    if has_prefix(cs.as_slice(), www.as_slice()) {
        s.substring_char(4, cs.len())
    } else {
        assert(s@.subrange(0, s@.len() as int) =~= s@);
        s.substring_char(0, cs.len())
    }
}

/// The host of the URL as a string slice, empty where there is none.
fn host_str(url: &UrlParts) -> (r: &str)
    ensures
        r@ == host_or_empty(url@),
{
    match &url.host {
        Some(h) => h.as_str(),
        None => {
            let empty = "";
            proof {
                reveal_strlit("");
            }
            assert(empty@ =~= Seq::<char>::empty());
            empty
        },
    }
}

/// Returns the host without "www." prefix.
pub fn host_without_www(url: &UrlParts) -> (r: String)
    ensures
        r@ == domain_of(url@),
{
    String::from_str(without_www(host_str(url)))
}

/// Returns true if the URL is a root URL (no meaningful path, query, fragment).
pub fn is_root(url: &UrlParts) -> (r: bool)
    ensures
        r == is_root_url(url@),
{
    let path = url.path.as_str();
    let n = path.unicode_len();
    let path_is_root = n == 0 || (n == 1 && path.get_char(0) == '/');
    assert(n == 1 && path@[0] == '/' ==> path@ =~= seq!['/']);
    path_is_root && url.query.is_none() && url.fragment.is_none() && url.username.as_str().unicode_len() == 0
        && url.password.is_none()
}

/// The path as it appears in the naked string.
pub(crate) fn trimmed_path(path: &str) -> (r: &str)
    ensures
        r@ == naked_path(path@),
{
    let cs = chars_of(path);
    let n = cs.len();
    if n == 1 && cs[0] == '/' {
        assert(path@ =~= seq!['/']);
        return path.substring_char(0, 0);
    }
    assert(path@ != seq!['/']);
    let mut k: usize = n;
    assert(path@.take(n as int) =~= path@);
    while k > 0 && cs[k - 1] == '/'
        invariant
            n == path@.len(),
            cs@ == path@,
            k <= n,
            trim_trailing_slashes(path@) == trim_trailing_slashes(path@.take(k as int)),
        decreases k,
    {
        assert(path@.take(k as int).drop_last() =~= path@.take(k - 1));
        k = k - 1;
    }
    assert(path@.subrange(0, k as int) =~= path@.take(k as int));
    path.substring_char(0, k)
}

/// Appends `sep` and the component, where there is one.
fn append_marked(out: &mut String, sep: &str, component: &Option<String>)
    requires
        sep@.len() == 1,
    ensures
        final(out)@ == old(out)@ + marked_component(sep@[0], opt_chars(*component)),
{
    match component {
        Some(c) => {
            assert(sep@ =~= seq![sep@[0]]);
            out.append(sep);
            out.append(c.as_str());
            assert(final(out)@ =~= old(out)@ + (seq![sep@[0]] + c@));
        },
        None => {
            assert(old(out)@ + seq![] =~= old(out)@);
        },
    }
}

/// Returns URL string without scheme, www. prefix, and trailing '/'.
/// e.g. "https://www.example.com/path/" → "example.com/path"
pub fn naked_string(url: &UrlParts) -> (r: String)
    ensures
        r@ == naked_of(url@),
{
    let mut result = String::from_str(without_www(host_str(url)));
    result.append(trimmed_path(url.path.as_str()));
    let question = "?";
    let hash = "#";
    proof {
        reveal_strlit("?");
        reveal_strlit("#");
    }
    append_marked(&mut result, question, &url.query);
    append_marked(&mut result, hash, &url.fragment);
    result
}

/// Keeps the characters that are not whitespace.
pub open spec fn non_whitespace() -> spec_fn(char) -> bool {
    |c: char| !unicode_whitespace(c)
}

proof fn lemma_word_has_no_whitespace(s: Seq<char>)
    ensures
        forall|j: int| 0 <= j < word_len(s) ==> !unicode_whitespace(#[trigger] s[j]),
    decreases s.len(),
{
    if s.len() > 0 && !unicode_whitespace(s[0]) {
        lemma_word_has_no_whitespace(s.drop_first());
        lemma_word_len_bound(s.drop_first());
        assert forall|j: int| 0 <= j < word_len(s) implies !unicode_whitespace(#[trigger] s[j]) by {
            if j > 0 {
                assert(s[j] == s.drop_first()[j - 1]);
            }
        }
    }
}

proof fn lemma_filter_keeps_all(s: Seq<char>)
    requires
        forall|j: int| 0 <= j < s.len() ==> !unicode_whitespace(#[trigger] s[j]),
    ensures
        s.filter(non_whitespace()) == s,
    decreases s.len(),
{
    reveal(Seq::filter);
    if s.len() > 0 {
        lemma_filter_keeps_all(s.drop_last());
        assert(s.drop_last().push(s.last()) =~= s);
    }
}

/// A non-empty run of characters none of which is whitespace.
pub open spec fn is_word(w: Seq<char>) -> bool {
    w.len() > 0 && forall|j: int| 0 <= j < w.len() ==> !unicode_whitespace(#[trigger] w[j])
}

/// Every token is a non-empty word: it holds no whitespace.
pub proof fn lemma_tokens_are_words(s: Seq<char>)
    ensures
        forall|i: int| 0 <= i < split_whitespace(s).len() ==> is_word(#[trigger] split_whitespace(s)[i]),
    decreases s.len(),
{
    if s.len() == 0 {
    } else if unicode_whitespace(s[0]) {
        lemma_tokens_are_words(s.drop_first());
        assert(split_whitespace(s) == split_whitespace(s.drop_first()));
    } else {
        let n = word_len(s);
        lemma_word_len_bound(s);
        lemma_word_has_no_whitespace(s);
        lemma_tokens_are_words(s.skip(n as int));
        let rest = split_whitespace(s.skip(n as int));
        let word = s.take(n as int);
        assert(split_whitespace(s) == seq![word] + rest);
        assert forall|j: int| 0 <= j < word.len() implies !unicode_whitespace(#[trigger] word[j]) by {
            assert(word[j] == s[j]);
        }
        assert(is_word(word));
        assert forall|i: int| 0 <= i < split_whitespace(s).len() implies is_word(
            #[trigger] split_whitespace(s)[i],
        ) by {
            if i > 0 {
                assert(split_whitespace(s)[i] == rest[i - 1]);
            }
        }
    }
}

/// Splitting only drops whitespace: the tokens, put back together, are the
/// string's non-whitespace characters in order.
pub proof fn lemma_tokens_cover_non_whitespace(s: Seq<char>)
    ensures
        split_whitespace(s).flatten() == s.filter(non_whitespace()),
    decreases s.len(),
{
    broadcast use Seq::lemma_filter_prepend;
    broadcast use Seq::filter_distributes_over_add;

    if s.len() == 0 {
        reveal(Seq::filter);
        assert(split_whitespace(s).flatten() =~= Seq::<char>::empty());
    } else if unicode_whitespace(s[0]) {
        lemma_tokens_cover_non_whitespace(s.drop_first());
        assert(s =~= seq![s[0]] + s.drop_first());
        assert(s.filter(non_whitespace()) == (seq![s[0]] + s.drop_first()).filter(
            non_whitespace(),
        ));
        assert(s.filter(non_whitespace()) =~= s.drop_first().filter(non_whitespace()));
    } else {
        let n = word_len(s) as int;
        lemma_word_len_bound(s);
        lemma_word_has_no_whitespace(s);
        let word = s.take(n);
        let tail = s.skip(n);
        lemma_tokens_cover_non_whitespace(tail);
        let rest = split_whitespace(tail);
        assert((seq![word] + rest).drop_first() =~= rest);
        assert(split_whitespace(s).flatten() == word + rest.flatten());
        assert forall|j: int| 0 <= j < word.len() implies !unicode_whitespace(#[trigger] word[j]) by {
            assert(word[j] == s[j]);
        }
        lemma_filter_keeps_all(word);
        assert(s =~= word + tail);
        assert(s.filter(non_whitespace()) == (word + tail).filter(non_whitespace()));
    }
}

/// A string of whitespace alone has no tokens.
pub proof fn lemma_blank_has_no_tokens(s: Seq<char>)
    requires
        forall|j: int| 0 <= j < s.len() ==> unicode_whitespace(#[trigger] s[j]),
    ensures
        split_whitespace(s) == Seq::<Seq<char>>::empty(),
    decreases s.len(),
{
    if s.len() > 0 {
        assert forall|j: int| 0 <= j < s.drop_first().len() implies unicode_whitespace(
            #[trigger] s.drop_first()[j],
        ) by {
            assert(s.drop_first()[j] == s[j + 1]);
        }
        lemma_blank_has_no_tokens(s.drop_first());
    }
}

/// Whatever starts with `prefix` as it stands passes the boundary test.
pub proof fn lemma_exact_prefix_passes_boundary(s: Seq<char>, prefix: Seq<char>)
    requires
        starts_with(s, prefix),
    ensures
        boundary_starts_with(s, prefix),
{
}

/// The domain (host without `www.`) is where the naked string starts.
pub proof fn lemma_domain_starts_naked(u: UrlView)
    ensures
        starts_with(naked_of(u), domain_of(u)),
{
    let d = domain_of(u);
    assert(naked_of(u).subrange(0, d.len() as int) =~= d);
}

/// The naked string of a root URL is its domain.
pub proof fn lemma_root_naked_is_domain(u: UrlView)
    requires
        is_root_url(u),
    ensures
        naked_of(u) == domain_of(u),
{
    if u.path.len() == 0 {
        assert(trim_trailing_slashes(u.path) == u.path);
    }
    assert(naked_path(u.path) =~= Seq::<char>::empty());
    assert(naked_of(u) =~= domain_of(u));
}

/// Words joined with single spaces.
pub open spec fn join_with_spaces(words: Seq<Seq<char>>) -> Seq<char>
    decreases words.len(),
{
    if words.len() == 0 {
        seq![]
    } else if words.len() == 1 {
        words[0]
    } else {
        words[0] + seq![' '] + join_with_spaces(words.drop_first())
    }
}

proof fn lemma_word_len_of_word_then(w: Seq<char>, t: Seq<char>)
    requires
        forall|j: int| 0 <= j < w.len() ==> !unicode_whitespace(#[trigger] w[j]),
    ensures
        word_len(w + t) == w.len() + word_len(t),
    decreases w.len(),
{
    if w.len() > 0 {
        assert((w + t).drop_first() =~= w.drop_first() + t);
        assert forall|j: int| 0 <= j < w.drop_first().len() implies !unicode_whitespace(
            #[trigger] w.drop_first()[j],
        ) by {
            assert(w.drop_first()[j] == w[j + 1]);
        }
        lemma_word_len_of_word_then(w.drop_first(), t);
    } else {
        assert(w + t =~= t);
    }
}

proof fn lemma_split_word_then(w: Seq<char>, t: Seq<char>)
    requires
        is_word(w),
        t.len() == 0 || unicode_whitespace(t[0]),
    ensures
        split_whitespace(w + t) == seq![w] + split_whitespace(t),
{
    lemma_word_len_of_word_then(w, t);
    assert(word_len(t) == 0);
    let s = w + t;
    assert(s[0] == w[0]);
    assert(s.take(w.len() as int) =~= w);
    assert(s.skip(w.len() as int) =~= t);
}

/// Splitting words joined with spaces gives the words back.
pub proof fn lemma_split_joined_words(words: Seq<Seq<char>>)
    requires
        forall|i: int| 0 <= i < words.len() ==> is_word(#[trigger] words[i]),
    ensures
        split_whitespace(join_with_spaces(words)) == words,
    decreases words.len(),
{
    if words.len() == 0 {
    } else if words.len() == 1 {
        lemma_split_word_then(words[0], seq![]);
        assert(words[0] + seq![] =~= words[0]);
        assert(seq![words[0]] + split_whitespace(seq![]) =~= words);
    } else {
        let rest = words.drop_first();
        assert forall|i: int| 0 <= i < rest.len() implies is_word(#[trigger] rest[i]) by {
            assert(rest[i] == words[i + 1]);
        }
        lemma_split_joined_words(rest);
        let t = seq![' '] + join_with_spaces(rest);
        assert(unicode_whitespace(t[0]));
        lemma_split_word_then(words[0], t);
        assert(words[0] + seq![' '] + join_with_spaces(rest) =~= words[0] + t);
        assert(t.drop_first() =~= join_with_spaces(rest));
        assert(split_whitespace(t) == split_whitespace(join_with_spaces(rest)));
        assert(seq![words[0]] + rest =~= words);
    }
}

/// Tokenising the tokens joined with spaces gives the same tokens.
pub proof fn lemma_tokens_round_trip(s: Seq<char>)
    ensures
        split_whitespace(join_with_spaces(split_whitespace(s))) == split_whitespace(s),
{
    lemma_tokens_are_words(s);
    lemma_split_joined_words(split_whitespace(s));
}

proof fn lemma_trimmed_has_no_trailing_slash(s: Seq<char>)
    ensures
        trim_trailing_slashes(s).len() > 0 ==> trim_trailing_slashes(s).last() != '/',
        trim_trailing_slashes(s).len() <= s.len(),
        forall|j: int|
            0 <= j < trim_trailing_slashes(s).len() ==> #[trigger] trim_trailing_slashes(s)[j]
                == s[j],
    decreases s.len(),
{
    if s.len() > 0 && s.last() == '/' {
        lemma_trimmed_has_no_trailing_slash(s.drop_last());
    }
}

/// Without query or fragment, and with a host that holds no `/` (as every
/// URL that [`UrlParts::parse`] gives), the naked string never ends in `/`.
pub proof fn lemma_naked_has_no_trailing_slash(u: UrlView)
    requires
        u.query is None,
        u.fragment is None,
        host_has_no_slash(u),
    ensures
        naked_of(u).len() > 0 ==> naked_of(u).last() != '/',
{
    let h = host_or_empty(u);
    let d = domain_of(u);
    let p = naked_path(u.path);
    assert(naked_of(u) =~= d + p);
    lemma_trimmed_has_no_trailing_slash(u.path);
    if p.len() == 0 {
        if d.len() > 0 {
            if starts_with(h, www_prefix()) {
                assert(d.last() == h[h.len() - 1]);
            } else {
                assert(d.last() == h[h.len() - 1]);
            }
        }
        assert(naked_of(u) =~= d);
    } else {
        assert(naked_of(u).last() == p.last());
    }
}

/// `s` ends with `suffix`.
pub open spec fn ends_with(s: Seq<char>, suffix: Seq<char>) -> bool {
    suffix.len() <= s.len() && s.subrange(s.len() - suffix.len(), s.len() as int) == suffix
}

/// The naked string keeps the query and the fragment at its end: `#` and
/// the fragment where there is one, whether or not there is a query; `?`
/// and the query (then the fragment, if any) where there is a query.
/// Without either, it is the host without `www.` followed by the path
/// without trailing slashes.
pub proof fn lemma_naked_keeps_query_and_fragment(u: UrlView)
    ensures
        u.fragment matches Some(f) ==> ends_with(naked_of(u), seq!['#'] + f),
        u.query matches Some(q) ==> (u.fragment matches Some(f) ==> ends_with(
            naked_of(u),
            seq!['?'] + q + seq!['#'] + f,
        )),
        u.query matches Some(q) ==> (u.fragment is None ==> ends_with(naked_of(u), seq!['?'] + q)),
        u.query is None && u.fragment is None ==> naked_of(u) == domain_of(u) + naked_path(u.path),
{
    let n = naked_of(u);
    let base = domain_of(u) + naked_path(u.path);
    match u.query {
        Some(q) => match u.fragment {
            Some(f) => {
                let tail = seq!['?'] + q + seq!['#'] + f;
                assert(n =~= base + tail);
                assert(n.subrange(n.len() - tail.len(), n.len() as int) =~= tail);
                let ft = seq!['#'] + f;
                assert(n.subrange(n.len() - ft.len(), n.len() as int) =~= ft);
            },
            None => {
                let tail = seq!['?'] + q;
                assert(n =~= base + tail);
                assert(n.subrange(n.len() - tail.len(), n.len() as int) =~= tail);
            },
        },
        None => match u.fragment {
            Some(f) => {
                let tail = seq!['#'] + f;
                assert(n =~= base + tail);
                assert(n.subrange(n.len() - tail.len(), n.len() as int) =~= tail);
            },
            None => {
                assert(n =~= base);
            },
        },
    }
}

} // verus!
