use mother::search::{
    check_search, extract_candidates, looks_like_title, looks_like_url, normalize_line,
    probe_tools, search_result, SearchError,
};

#[test]
fn normalize_strips_reference_markers() {
    assert_eq!(normalize_line("  [12]Some Heading "), "Some Heading");
    assert_eq!(normalize_line("[3]]] - : . Title"), "- : . Title");
    assert_eq!(normalize_line("[3]]]-:. Title"), "Title");
    assert_eq!(normalize_line("-- plain"), "plain");
    assert_eq!(normalize_line("[x] keep"), "x] keep");
}

#[test]
fn url_detection() {
    assert!(looks_like_url("see https://example.org"));
    assert!(looks_like_url("http://a"));
    assert!(looks_like_url("www.example.org"));
    assert!(!looks_like_url("no address here"));
}

#[test]
fn title_detection() {
    assert!(looks_like_title("RUST RELEASE Notes"));
    assert!(!looks_like_title("RUST Release Notes"));
    assert!(!looks_like_title("this is all lowercase text"));
    assert!(!looks_like_title("SHORT"));
    assert!(!looks_like_title("ONEWORDONLYHEADING"));
    assert!(!looks_like_title(&"WORD ".repeat(30)));
    assert!(looks_like_title("ÜBER STRASSE 12"));
    assert!(!looks_like_title("Über Straße 12"));
}

#[test]
fn candidates_in_order_without_repeats() {
    let raw = "  [1]https://a.example/x\r\nplain words only here\n\nBIG NEWS TODAY\n[2]https://a.example/x\n";
    assert_eq!(extract_candidates(raw), vec!["https://a.example/x".to_string(), "BIG NEWS TODAY".to_string()]);
    assert!(extract_candidates("").is_empty());
}

#[test]
fn candidates_are_capped() {
    let raw: String = (0..60).map(|i| format!("www.site{}.org\n", i)).collect();
    let out = extract_candidates(&raw);
    assert_eq!(out.len(), 40);
    assert_eq!(out[39], "www.site39.org");
}

#[test]
fn search_preconditions() {
    let tools = probe_tools(true, false);
    assert!(tools.ready());
    assert!(matches!(check_search("   ", tools), Err(SearchError::InvalidInput("url missing"))));
    assert!(matches!(check_search("https://x", probe_tools(false, true)), Err(SearchError::ToolMissing("lynx"))));
    assert!(check_search("https://x", tools).is_ok());
    let r = search_result("WELCOME HOME PAGE\n".to_string());
    assert_eq!(r.candidates, vec!["WELCOME HOME PAGE".to_string()]);
}
