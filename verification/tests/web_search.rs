use lucy::web_search::{
    ddg_endpoints,
    ddg_page_answer, decode_entities, no_results_message, parse_ddg_html, parse_ddg_lite,
    tavily_digest, tavily_http_error, tavily_key_usable, TavilyHit,
};

#[test]
fn entities_decode_in_order() {
    assert_eq!(
        decode_entities("a &amp;lt; b &quot;x&quot; &#39;y&#x27;&nbsp;z &gt;"),
        "a < b \"x\" 'y' z >"
    );
    assert_eq!(decode_entities("plain"), "plain");
}

const LITE_PAGE: &str = r#"<table>
<tr><td valign="top">1.</td><td><a class="result-link" href="https://ex.com/a">Ex &amp; <b>A</b></a></td></tr>
<tr><td>&nbsp;</td><td class="result-snippet">  Snip <b>one</b> </td></tr>
<tr><td valign="top">2.</td><td><a class="result-link" href="https://ex.com/b">Second</a></td></tr>
<tr><td>&nbsp;</td><td class="result-snippet">Snip two</td></tr>
</table>"#;

#[test]
fn lite_pairs_links_with_snippets() {
    let r = parse_ddg_lite(LITE_PAGE);
    assert_eq!(
        r,
        vec![
            "* Ex & A \u{2014} https://ex.com/a\n  Snip one".to_string(),
            "* Second \u{2014} https://ex.com/b\n  Snip two".to_string(),
        ]
    );
}

#[test]
fn lite_links_without_snippets() {
    let page = r#"<a class="result-link" href="https://ex.com/a">Only link</a>"#;
    assert_eq!(parse_ddg_lite(page), vec!["* Only link \u{2014} https://ex.com/a".to_string()]);
    assert!(parse_ddg_lite("<html>nothing</html>").is_empty());
}

#[test]
fn lite_caps_at_five() {
    let mut page = String::new();
    for i in 0..7 {
        page.push_str(&format!(
            "<a class=\"result-link\" href=\"https://ex.com/{}\">T{}</a><td class=\"result-snippet\">S{}</td>",
            i, i, i
        ));
    }
    let r = parse_ddg_lite(&page);
    assert_eq!(r.len(), 5);
    assert_eq!(r[4], "* T4 \u{2014} https://ex.com/4\n  S4");
}

#[test]
fn html_layout_pairs_urls_and_snippets() {
    let page = r#"<div><a class="result__url" href="x"> ex.com/1 </a>
<a class="result__snippet" href="x">Snippet <b>1</b> &amp; more</a></div>"#;
    assert_eq!(parse_ddg_html(page), vec!["* ex.com/1: Snippet 1 & more".to_string()]);
}

#[test]
fn html_layout_without_urls_says_so() {
    let page = r#"<div class="result__snippet">Only a snippet</div>"#;
    assert_eq!(parse_ddg_html(page), vec!["* (no url): Only a snippet".to_string()]);
}

#[test]
fn page_answer_joins_results() {
    let a = ddg_page_answer(0, LITE_PAGE).unwrap();
    assert_eq!(
        a,
        "* Ex & A \u{2014} https://ex.com/a\n  Snip one\n\n* Second \u{2014} https://ex.com/b\n  Snip two"
    );
    assert_eq!(ddg_page_answer(1, LITE_PAGE), None);
    assert_eq!(ddg_page_answer(0, ""), None);
}

#[test]
fn no_results_names_the_query() {
    assert_eq!(
        no_results_message("rust"),
        "No web results found across 3 DuckDuckGo endpoints. For reliable search, configure a Tavily API key (free 1000/month at tavily.com) \u{2014} Lucy will use it automatically. Query: 'rust'"
    );
}

fn hit(title: &str, url: &str, content: &str, score: &str) -> TavilyHit {
    TavilyHit { title: title.into(), url: url.into(), content: content.into(), score: score.into() }
}

#[test]
fn tavily_digest_with_summary() {
    let r = tavily_digest(Some("  Sum  ".into()), &vec![hit(" T ", "u", " c ", "0.91")]);
    assert_eq!(r, "[Tavily summary]\nSum\n\n[1] T (0.91)\n  u\n  c");
}

#[test]
fn tavily_digest_empty_reply() {
    assert_eq!(tavily_digest(None, &vec![]), "No results found.");
    assert_eq!(tavily_digest(Some("   ".into()), &vec![]), "");
}

#[test]
fn tavily_long_snippet_is_cut() {
    let long = "x".repeat(600);
    let r = tavily_digest(None, &vec![hit("T", "u", &long, "0.50")]);
    assert_eq!(r, format!("[1] T (0.50)\n  u\n  {}\u{2026}", "x".repeat(500)));
}

#[test]
fn tavily_shows_five_results() {
    let hits: Vec<TavilyHit> = (0..7).map(|i| hit(&format!("T{}", i), "u", "c", "1.00")).collect();
    let r = tavily_digest(None, &hits);
    assert!(r.contains("[5] T4"));
    assert!(!r.contains("[6]"));
}

#[test]
fn tavily_error_message() {
    assert_eq!(tavily_http_error(502, "bad gateway"), "Tavily HTTP 502: bad gateway");
    let body = "é".repeat(150);
    assert_eq!(tavily_http_error(500, &body), format!("Tavily HTTP 500: {}", "é".repeat(100)));
}

#[test]
fn blank_tavily_key_is_unusable() {
    assert!(!tavily_key_usable("   "));
    assert!(tavily_key_usable(" tvly-123 "));
}

#[test]
fn ddg_endpoints_percent_encode_the_query() {
    assert_eq!(
        ddg_endpoints("año & b-c_d.e~f"),
        vec![
            "https://lite.duckduckgo.com/lite/?q=a%C3%B1o%20%26%20b-c_d.e~f".to_string(),
            "https://html.duckduckgo.com/html/?q=a%C3%B1o%20%26%20b-c_d.e~f".to_string(),
            "https://duckduckgo.com/html/?q=a%C3%B1o%20%26%20b-c_d.e~f&ia=web".to_string(),
        ]
    );
}
