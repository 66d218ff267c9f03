//! Web search results for the assistant: the Tavily digest and the
//! DuckDuckGo scrapers (the lite table layout and the class-based HTML
//! layout), which turn a result page into at most five `* ...` lines.
use vstd::prelude::*;
use crate::text::{
    append, dec, decimal, join, join_strings, replace_all_str, replaced_all, trim, trim_end,
    trim_end_str, trim_str, views,
};
use crate::regexes::{re_captures_all, re_replace_all, regex_captures_all, regex_replace_all, all_group_views};
use crate::log_analysis::{truncate_utf8, utf8_prefix};

verus! {

/// Results shown per search.
pub const MAX_RESULTS: usize = 5;

/// An HTML tag.
pub const TAG_RE: &'static str = r"<[^>]+>";

/// A result link of the lite layout: its `href` and its title.
pub const LITE_LINK_RE: &'static str = r#"(?s)<a[^>]*class="result-link"[^>]*href="([^"]+)"[^>]*>(.*?)</a>"#;
/// A result snippet cell of the lite layout.
pub const LITE_SNIPPET_RE: &'static str = r#"(?s)<td[^>]*class="result-snippet"[^>]*>(.*?)</td>"#;

/// Snippet elements of the class-based layout, tried in order.
pub const HTML_SNIPPET_A_RE: &'static str = "(?s)<a[^>]*class=\"[^\"]*result__snippet[^\"]*\"[^>]*>(.*?)</a>";
pub const HTML_SNIPPET_DIV_RE: &'static str = "(?s)<div[^>]*class=\"[^\"]*result__snippet[^\"]*\"[^>]*>(.*?)</div>";
pub const HTML_SNIPPET_SPAN_RE: &'static str = "(?s)<span[^>]*class=\"[^\"]*result__snippet[^\"]*\"[^>]*>(.*?)</span>";
/// URL elements of the class-based layout, tried in order.
pub const HTML_URL_A_RE: &'static str = "(?s)<a[^>]*class=\"[^\"]*result__url[^\"]*\"[^>]*>(.*?)</a>";
pub const HTML_URL_SPAN_RE: &'static str = "(?s)<span[^>]*class=\"[^\"]*result__url[^\"]*\"[^>]*>(.*?)</span>";

// ── Cleaning fragments ─────────────────────────────────────────────────

/// The few HTML entities result pages use, decoded in this order
/// (`&amp;` first, so `&amp;lt;` becomes `<`).
pub open spec fn decoded_entities(s: Seq<char>) -> Seq<char> {
    replaced_all(
        replaced_all(
            replaced_all(
                replaced_all(
                    replaced_all(replaced_all(replaced_all(s, "&amp;"@, "&"@), "&lt;"@, "<"@), "&gt;"@, ">"@),
                    "&quot;"@,
                    "\""@,
                ),
                "&#x27;"@,
                "'"@,
            ),
            "&#39;"@,
            "'"@,
        ),
        "&nbsp;"@,
        " "@,
    )
}

/// Decodes `&amp;`, `&lt;`, `&gt;`, `&quot;`, `&#x27;`, `&#39;` and
/// `&nbsp;`.
pub fn decode_entities(s: &str) -> (r: String)
    ensures
        r@ == decoded_entities(s@),
{
    let a = replace_all_str(s, "&amp;", "&");
    let b = replace_all_str(a.as_str(), "&lt;", "<");
    let c = replace_all_str(b.as_str(), "&gt;", ">");
    let d = replace_all_str(c.as_str(), "&quot;", "\"");
    let e = replace_all_str(d.as_str(), "&#x27;", "'");
    let f = replace_all_str(e.as_str(), "&#39;", "'");
    replace_all_str(f.as_str(), "&nbsp;", " ")
}

/// A fragment of a result page as shown: tags removed, trimmed, entities
/// decoded.
pub open spec fn cleaned(s: Seq<char>) -> Seq<char> {
    decoded_entities(trim(re_replace_all(TAG_RE@, s, ""@)))
}

fn clean(s: &str) -> (r: String)
    ensures
        r@ == cleaned(s@),
{
    let stripped = regex_replace_all(TAG_RE, s, "");
    let t = trim_str(stripped.as_str());
    decode_entities(t.as_str())
}

/// Group `k` of a match (empty when the group is absent).
pub open spec fn group_text(g: Seq<Option<Seq<char>>>, k: int) -> Seq<char> {
    if 0 <= k < g.len() {
        match g[k] {
            Some(t) => t,
            None => Seq::empty(),
        }
    } else {
        Seq::empty()
    }
}

fn group_at(g: &Vec<Option<String>>, k: usize) -> (r: String)
    ensures
        r@ == group_text(crate::regexes::group_views(g@), k as int),
{
    if k < g.len() {
        match &g[k] {
            Some(t) => t.clone(),
            None => String::new(),
        }
    } else {
        String::new()
    }
}

// ── The lite layout ────────────────────────────────────────────────────

/// One lite result with its snippet: `* title — url` and the snippet on
/// an indented line.
pub open spec fn lite_line(link: Seq<Option<Seq<char>>>, snippet: Seq<Option<Seq<char>>>) -> Seq<char> {
    "* "@ + cleaned(group_text(link, 2)) + " \u{2014} "@ + group_text(link, 1) + "\n  "@ + cleaned(group_text(snippet, 1))
}

/// One lite result without a snippet.
pub open spec fn lite_bare_line(link: Seq<Option<Seq<char>>>) -> Seq<char> {
    "* "@ + cleaned(group_text(link, 2)) + " \u{2014} "@ + group_text(link, 1)
}

/// The results of a lite page: links and snippets paired in document
/// order, at most five; when no pair forms, the first five links alone.
pub open spec fn lite_results(html: Seq<char>) -> Seq<Seq<char>> {
    let links = re_captures_all(LITE_LINK_RE@, html);
    let snippets = re_captures_all(LITE_SNIPPET_RE@, html);
    let pairs = vstd::math::min(vstd::math::min(links.len() as int, snippets.len() as int), MAX_RESULTS as int);
    if pairs > 0 {
        Seq::new(pairs as nat, |i: int| lite_line(links[i], snippets[i]))
    } else {
        Seq::new(vstd::math::min(links.len() as int, MAX_RESULTS as int) as nat, |i: int| lite_bare_line(links[i]))
    }
}

/// Parses a `lite.duckduckgo.com/lite/` result page.
pub fn parse_ddg_lite(html: &str) -> (r: Vec<String>)
    ensures
        views(r@) == lite_results(html@),
{
    let links = regex_captures_all(LITE_LINK_RE, html);
    let snippets = regex_captures_all(LITE_SNIPPET_RE, html);
    let ghost lv = all_group_views(links@);
    let ghost sv = all_group_views(snippets@);
    let mut pairs = if links.len() < snippets.len() { links.len() } else { snippets.len() };
    if pairs > MAX_RESULTS {
        pairs = MAX_RESULTS;
    }
    let mut out: Vec<String> = Vec::new();
    let mut i: usize = 0;
    while i < pairs
        invariant
            i <= pairs,
            pairs <= links.len(),
            pairs <= snippets.len(),
            lv == all_group_views(links@),
            sv == all_group_views(snippets@),
            views(out@) == Seq::new(i as nat, |k: int| lite_line(lv[k], sv[k])),
        decreases pairs - i,
    {
        let mut line = String::from_str("* ");
        append(&mut line, clean(group_at(&links[i], 2).as_str()).as_str());
        append(&mut line, " \u{2014} ");
        append(&mut line, group_at(&links[i], 1).as_str());
        append(&mut line, "\n  ");
        append(&mut line, clean(group_at(&snippets[i], 1).as_str()).as_str());
        assert(lv[i as int] == crate::regexes::group_views(links@[i as int]@));
        assert(sv[i as int] == crate::regexes::group_views(snippets@[i as int]@));
        assert(line@ =~= lite_line(lv[i as int], sv[i as int]));
        let ghost before = views(out@);
        out.push(line);
        assert(views(out@) =~= before.push(lite_line(lv[i as int], sv[i as int])));
        assert(views(out@) =~= Seq::new((i + 1) as nat, |k: int| lite_line(lv[k], sv[k])));
        i += 1;
    }
    if pairs == 0 && links.len() > 0 {
        let n = if links.len() < MAX_RESULTS { links.len() } else { MAX_RESULTS };
        let mut j: usize = 0;
        assert(views(out@) =~= Seq::new(0, |k: int| lite_bare_line(lv[k])));
        while j < n
            invariant
                j <= n,
                n <= links.len(),
                lv == all_group_views(links@),
                views(out@) == Seq::new(j as nat, |k: int| lite_bare_line(lv[k])),
            decreases n - j,
        {
            let mut line = String::from_str("* ");
            append(&mut line, clean(group_at(&links[j], 2).as_str()).as_str());
            append(&mut line, " \u{2014} ");
            append(&mut line, group_at(&links[j], 1).as_str());
            assert(lv[j as int] == crate::regexes::group_views(links@[j as int]@));
            assert(line@ =~= lite_bare_line(lv[j as int]));
            let ghost before = views(out@);
            out.push(line);
            assert(views(out@) =~= before.push(lite_bare_line(lv[j as int])));
            assert(views(out@) =~= Seq::new((j + 1) as nat, |k: int| lite_bare_line(lv[k])));
            j += 1;
        }
    }
    proof {
        assert(views(out@) =~= lite_results(html@));
    }
    out
}

// ── The class-based layout ─────────────────────────────────────────────

/// The snippet matches of a class-based page: those of the first snippet
/// pattern (`a`, then `div`, then `span`) that matches at all.
pub open spec fn html_snippets(html: Seq<char>) -> Seq<Seq<Option<Seq<char>>>> {
    if re_captures_all(HTML_SNIPPET_A_RE@, html).len() > 0 {
        re_captures_all(HTML_SNIPPET_A_RE@, html)
    } else if re_captures_all(HTML_SNIPPET_DIV_RE@, html).len() > 0 {
        re_captures_all(HTML_SNIPPET_DIV_RE@, html)
    } else {
        re_captures_all(HTML_SNIPPET_SPAN_RE@, html)
    }
}

/// The URL matches of a class-based page: those of the first URL pattern
/// (`a`, then `span`) that matches at all.
pub open spec fn html_urls(html: Seq<char>) -> Seq<Seq<Option<Seq<char>>>> {
    if re_captures_all(HTML_URL_A_RE@, html).len() > 0 {
        re_captures_all(HTML_URL_A_RE@, html)
    } else {
        re_captures_all(HTML_URL_SPAN_RE@, html)
    }
}

/// One class-based result: `* url: snippet`.
pub open spec fn html_line(url_raw: Seq<char>, snippet_raw: Seq<char>) -> Seq<char> {
    "* "@ + cleaned(url_raw) + ": "@ + cleaned(snippet_raw)
}

/// The URL shown for result `i`: its trimmed URL match, or `(no url)`.
pub open spec fn url_for(urls: Seq<Seq<Option<Seq<char>>>>, i: int) -> Seq<char> {
    if i < urls.len() {
        trim(group_text(urls[i], 1))
    } else {
        "(no url)"@
    }
}

/// How many class-based results are shown: at most five, at most one per
/// snippet, and no more than the URLs found (or one when none is).
pub open spec fn html_count(snippets: nat, urls: nat) -> nat {
    vstd::math::min(vstd::math::min(snippets as int, MAX_RESULTS as int), vstd::math::max(urls as int, 1)) as nat
}

/// The results of a class-based page.
pub open spec fn html_results(html: Seq<char>) -> Seq<Seq<char>> {
    let snippets = html_snippets(html);
    let urls = html_urls(html);
    Seq::new(
        html_count(snippets.len(), urls.len()),
        |i: int| html_line(url_for(urls, i), group_text(snippets[i], 1)),
    )
}

fn snippet_matches(html: &str) -> (r: Vec<Vec<Option<String>>>)
    ensures
        all_group_views(r@) == html_snippets(html@),
{
    let a = regex_captures_all(HTML_SNIPPET_A_RE, html);
    if a.len() > 0 {
        return a;
    }
    let d = regex_captures_all(HTML_SNIPPET_DIV_RE, html);
    if d.len() > 0 {
        return d;
    }
    regex_captures_all(HTML_SNIPPET_SPAN_RE, html)
}

fn url_matches(html: &str) -> (r: Vec<Vec<Option<String>>>)
    ensures
        all_group_views(r@) == html_urls(html@),
{
    let a = regex_captures_all(HTML_URL_A_RE, html);
    if a.len() > 0 {
        return a;
    }
    regex_captures_all(HTML_URL_SPAN_RE, html)
}

/// Parses an `html.duckduckgo.com/html/` result page.
pub fn parse_ddg_html(html: &str) -> (r: Vec<String>)
    ensures
        views(r@) == html_results(html@),
{
    let snippets = snippet_matches(html);
    let urls = url_matches(html);
    let ghost sv = all_group_views(snippets@);
    let ghost uv = all_group_views(urls@);
    let mut n = if snippets.len() < MAX_RESULTS { snippets.len() } else { MAX_RESULTS };
    let cap = if urls.len() > 1 { urls.len() } else { 1 };
    if cap < n {
        n = cap;
    }
    assert(n == html_count(sv.len(), uv.len()));
    let mut out: Vec<String> = Vec::new();
    let mut i: usize = 0;
    while i < n
        invariant
            i <= n,
            n <= snippets.len(),
            sv == all_group_views(snippets@),
            uv == all_group_views(urls@),
            views(out@) == Seq::new(i as nat, |k: int| html_line(url_for(uv, k), group_text(sv[k], 1))),
        decreases n - i,
    {
        let url_raw = if i < urls.len() {
            assert(uv[i as int] == crate::regexes::group_views(urls@[i as int]@));
            trim_str(group_at(&urls[i], 1).as_str())
        } else {
            String::from_str("(no url)")
        };
        assert(url_raw@ == url_for(uv, i as int));
        assert(sv[i as int] == crate::regexes::group_views(snippets@[i as int]@));
        let snip_raw = group_at(&snippets[i], 1);
        let mut line = String::from_str("* ");
        append(&mut line, clean(url_raw.as_str()).as_str());
        append(&mut line, ": ");
        append(&mut line, clean(snip_raw.as_str()).as_str());
        assert(line@ =~= html_line(url_for(uv, i as int), group_text(sv[i as int], 1)));
        let ghost before = views(out@);
        out.push(line);
        assert(views(out@) =~= before.push(html_line(url_for(uv, i as int), group_text(sv[i as int], 1))));
        assert(views(out@) =~= Seq::new((i + 1) as nat, |k: int| html_line(url_for(uv, k), group_text(sv[k], 1))));
        i += 1;
    }
    out
}

// ── Picking the answer ─────────────────────────────────────────────────

/// What a DuckDuckGo page contributes: the results of the lite parser for
/// the first endpoint and of the class-based parser for the others,
/// joined by blank lines; nothing when the page yields no result.
pub open spec fn ddg_page_answer_spec(endpoint: nat, html: Seq<char>) -> Option<Seq<char>> {
    let results = if endpoint == 0 { lite_results(html) } else { html_results(html) };
    if results.len() > 0 {
        Some(join(results, "\n\n"@))
    } else {
        None
    }
}

/// The answer a fetched DuckDuckGo page gives, if it yields any result;
/// `endpoint` 0 is the lite endpoint, the others are class-based.
pub fn ddg_page_answer(endpoint: usize, html: &str) -> (r: Option<String>)
    ensures
        match r {
            Some(a) => ddg_page_answer_spec(endpoint as nat, html@) == Some(a@),
            None => ddg_page_answer_spec(endpoint as nat, html@) is None,
        },
{
    let results = if endpoint == 0 { parse_ddg_lite(html) } else { parse_ddg_html(html) };
    if results.len() > 0 {
        Some(join_strings(&results, "\n\n"))
    } else {
        None
    }
}

/// The reply when no endpoint gave a result.
pub open spec fn no_results_text(query: Seq<char>) -> Seq<char> {
    "No web results found across 3 DuckDuckGo endpoints. For reliable search, configure a Tavily API key (free 1000/month at tavily.com) \u{2014} Lucy will use it automatically. Query: '"@
        + query + "'"@
}

/// The reply when no endpoint gave a result: what to configure, and the
/// query.
pub fn no_results_message(query: &str) -> (r: String)
    ensures
        r@ == no_results_text(query@),
{
    let mut r = String::from_str(
        "No web results found across 3 DuckDuckGo endpoints. For reliable search, configure a Tavily API key (free 1000/month at tavily.com) \u{2014} Lucy will use it automatically. Query: '",
    );
    append(&mut r, query);
    append(&mut r, "'");
    r
}

// ── Endpoints ──────────────────────────────────────────────────────────

/// An uppercase hexadecimal digit.
pub open spec fn hex_upper(d: int) -> char {
    if d < 10 {
        (48 + d) as char
    } else {
        (55 + d) as char
    }
}

/// A byte that stays as it is in a URL: an ASCII letter or digit, `-`,
/// `.`, `_` or `~`.
pub open spec fn url_safe_byte(b: u8) -> bool {
    (48 <= b <= 57) || (65 <= b <= 90) || (97 <= b <= 122) || b == 45 || b == 46 || b == 95 || b == 126
}

/// Percent-encoding: each byte kept when safe, else `%` and its two
/// uppercase hexadecimal digits.
pub open spec fn url_encoded(b: Seq<u8>) -> Seq<char>
    decreases b.len(),
{
    if b.len() == 0 {
        Seq::empty()
    } else {
        let x = b.last();
        url_encoded(b.drop_last()) + if url_safe_byte(x) {
            seq![x as char]
        } else {
            seq!['%', hex_upper(x as int / 16), hex_upper(x as int % 16)]
        }
    }
}

/// `urlencoding::encode`: the UTF-8 bytes of `s`, percent-encoded.
#[verifier::external_body]
fn url_encode(s: &str) -> (r: String)
    ensures
        r@ == url_encoded(vstd::utf8::encode_utf8(s@)),
{
    urlencoding::encode(s).into_owned()
}

/// The three DuckDuckGo pages tried for a query, in order: the lite page,
/// then the two HTML pages.
pub open spec fn ddg_endpoints_spec(query: Seq<char>) -> Seq<Seq<char>> {
    let q = url_encoded(vstd::utf8::encode_utf8(query));
    seq![
        "https://lite.duckduckgo.com/lite/?q="@ + q,
        "https://html.duckduckgo.com/html/?q="@ + q,
        "https://duckduckgo.com/html/?q="@ + q + "&ia=web"@,
    ]
}

/// The DuckDuckGo addresses a query is fetched from, in the order tried.
pub fn ddg_endpoints(query: &str) -> (r: Vec<String>)
    ensures
        views(r@) == ddg_endpoints_spec(query@),
{
    let q = url_encode(query);
    let mut a = String::from_str("https://lite.duckduckgo.com/lite/?q=");
    append(&mut a, q.as_str());
    let mut b = String::from_str("https://html.duckduckgo.com/html/?q=");
    append(&mut b, q.as_str());
    let mut c = String::from_str("https://duckduckgo.com/html/?q=");
    append(&mut c, q.as_str());
    append(&mut c, "&ia=web");
    let r = vec![a, b, c];
    assert(views(r@) =~= ddg_endpoints_spec(query@));
    r
}

// ── Laws ───────────────────────────────────────────────────────────────

/// A result page never yields more than five results, whichever layout.
pub proof fn law_at_most_five_results(html: Seq<char>)
    ensures
        lite_results(html).len() <= MAX_RESULTS,
        html_results(html).len() <= MAX_RESULTS,
{
}

// ── Tavily ─────────────────────────────────────────────────────────────

/// Longest snippet shown per Tavily result, in bytes.
pub const SNIPPET_MAX_BYTES: usize = 500;

/// One Tavily result; `score` is its relevance already printed with two
/// decimals.
#[derive(Clone, Debug)]
pub struct TavilyHit {
    pub title: String,
    pub url: String,
    pub content: String,
    pub score: String,
}

impl View for TavilyHit {
    type V = (Seq<char>, Seq<char>, Seq<char>, Seq<char>);

    open spec fn view(&self) -> (Seq<char>, Seq<char>, Seq<char>, Seq<char>) {
        (self.title@, self.url@, self.content@, self.score@)
    }
}

/// The views of Tavily results.
pub open spec fn hit_views(v: Seq<TavilyHit>) -> Seq<(Seq<char>, Seq<char>, Seq<char>, Seq<char>)> {
    v.map_values(|h: TavilyHit| h@)
}

/// A result's snippet: trimmed, and past 500 bytes cut at a character
/// boundary with an ellipsis.
pub open spec fn tavily_snippet(content: Seq<char>) -> Seq<char> {
    let t = trim(content);
    if vstd::utf8::encode_utf8(t).len() > SNIPPET_MAX_BYTES {
        utf8_prefix(t, SNIPPET_MAX_BYTES as int) + "\u{2026}"@
    } else {
        t
    }
}

/// Result `i` (counted from zero): number, title, score, URL and snippet.
pub open spec fn tavily_entry(i: nat, h: (Seq<char>, Seq<char>, Seq<char>, Seq<char>)) -> Seq<char> {
    "["@ + decimal(i + 1) + "] "@ + trim(h.0) + " ("@ + h.3 + ")\n  "@ + h.1 + "\n  "@ + tavily_snippet(h.2) + "\n\n"@
}

/// The summary paragraph, when Tavily gave a non-blank one.
pub open spec fn tavily_head(answer: Option<Seq<char>>) -> Seq<char> {
    match answer {
        Some(a) => if trim(a).len() > 0 {
            "[Tavily summary]\n"@ + trim(a) + "\n\n"@
        } else {
            Seq::empty()
        },
        None => Seq::empty(),
    }
}

/// The first `n` results, one after another.
pub open spec fn tavily_entries(hits: Seq<(Seq<char>, Seq<char>, Seq<char>, Seq<char>)>, n: int) -> Seq<char>
    decreases n,
{
    if n <= 0 {
        Seq::empty()
    } else {
        tavily_entries(hits, n - 1) + tavily_entry((n - 1) as nat, hits[n - 1])
    }
}

/// The digest of a Tavily reply: `No results found.` when it holds
/// neither a summary nor a result; else the summary, then the first five
/// results, trailing whitespace trimmed.
pub open spec fn tavily_digest_spec(answer: Option<Seq<char>>, hits: Seq<(Seq<char>, Seq<char>, Seq<char>, Seq<char>)>) -> Seq<char> {
    if hits.len() == 0 && answer is None {
        "No results found."@
    } else {
        trim_end(tavily_head(answer) + tavily_entries(hits, vstd::math::min(hits.len() as int, MAX_RESULTS as int)))
    }
}

/// The view of an optional string.
pub open spec fn opt_view(o: Option<String>) -> Option<Seq<char>> {
    match o {
        Some(a) => Some(a@),
        None => None,
    }
}

/// The digest of a Tavily reply, ready for the assistant's context.
pub fn tavily_digest(answer: Option<String>, hits: &Vec<TavilyHit>) -> (r: String)
    ensures
        r@ == tavily_digest_spec(opt_view(answer), hit_views(hits@)),
{
    let ghost av = opt_view(answer);
    let ghost hv = hit_views(hits@);
    if hits.len() == 0 && answer.is_none() {
        return String::from_str("No results found.");
    }
    let mut out = String::new();
    if let Some(a) = &answer {
        let t = trim_str(a.as_str());
        if t.as_str().as_bytes().len() > 0 {
            out.append("[Tavily summary]\n");
            append(&mut out, t.as_str());
            append(&mut out, "\n\n");
        } else {
            proof {
                vstd::utf8::encode_utf8_decode_utf8(t@);
            }
        }
    }
    proof {
        if let Some(a) = av {
            if trim(a).len() > 0 {
                assert(vstd::utf8::encode_utf8(trim(a)).len() > 0) by {
                    vstd::utf8::encode_utf8_decode_utf8(trim(a));
                }
            }
        }
    }
    assert(out@ == tavily_head(av));
    let n = if hits.len() < MAX_RESULTS { hits.len() } else { MAX_RESULTS };
    let mut i: usize = 0;
    while i < n
        invariant
            i <= n,
            n <= hits.len(),
            n <= MAX_RESULTS,
            hv == hit_views(hits@),
            out@ == tavily_head(av) + tavily_entries(hv, i as int),
        decreases n - i,
    {
        let h = &hits[i];
        assert(hv[i as int] == h@);
        let e = entry_text(i, h);
        let ghost before = out@;
        append(&mut out, e.as_str());
        assert(tavily_entries(hv, i + 1) == tavily_entries(hv, i as int) + tavily_entry(i as nat, hv[i as int]));
        assert(out@ =~= tavily_head(av) + tavily_entries(hv, i + 1));
        i += 1;
    }
    trim_end_str(out.as_str())
}

fn entry_text(i: usize, h: &TavilyHit) -> (r: String)
    requires
        i < MAX_RESULTS,
    ensures
        r@ == tavily_entry(i as nat, h@),
{
    let snippet = snippet_of(h.content.as_str());
    let mut out = String::from_str("[");
    append(&mut out, dec((i + 1) as u64).as_str());
    append(&mut out, "] ");
    append(&mut out, trim_str(h.title.as_str()).as_str());
    append(&mut out, " (");
    append(&mut out, h.score.as_str());
    append(&mut out, ")\n  ");
    append(&mut out, h.url.as_str());
    append(&mut out, "\n  ");
    append(&mut out, snippet.as_str());
    append(&mut out, "\n\n");
    assert(out@ =~= tavily_entry(i as nat, h@));
    out
}

fn snippet_of(content: &str) -> (r: String)
    ensures
        r@ == tavily_snippet(content@),
{
    let t = trim_str(content);
    if t.as_str().as_bytes().len() > SNIPPET_MAX_BYTES {
        let mut c = truncate_utf8(t.as_str(), SNIPPET_MAX_BYTES);
        append(&mut c, "\u{2026}");
        c
    } else {
        t
    }
}

/// The refusal of a failed Tavily call: its status and the first 200 bytes
/// of its body (cut at a character boundary).
pub fn tavily_http_error(status: u16, body: &str) -> (r: String)
    ensures
        r@ == "Tavily HTTP "@ + decimal(status as nat) + ": "@ + utf8_prefix(body@, 200),
{
    let mut r = String::from_str("Tavily HTTP ");
    append(&mut r, dec(status as u64).as_str());
    append(&mut r, ": ");
    append(&mut r, truncate_utf8(body, 200).as_str());
    r
}

/// Whether a stored Tavily key is usable (not blank).
pub fn tavily_key_usable(key: &str) -> (b: bool)
    ensures
        b == (trim(key@).len() > 0),
{
    let t = trim_str(key);
    proof {
        vstd::utf8::encode_utf8_decode_utf8(t@);
    }
    t.as_str().as_bytes().len() > 0
}

} // verus!
