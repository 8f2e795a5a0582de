use folklore::links::{
    canonicalize, decide_link, extract_links_same_domain, follow_link, has_extension,
    have_same_origin, link_looks_interesting, resolve_link, to_ascii_lower, SiteOrigin,
};

fn some(s: &str) -> Option<String> {
    Some(s.to_string())
}

#[test]
fn canonical_form_drops_query_and_fragment() {
    assert_eq!(canonicalize("http://a/x?q=1#frag"), some("http://a/x"));
    assert_eq!(canonicalize("http://a/x#frag"), some("http://a/x"));
    assert_eq!(canonicalize("http://a/x?q=1"), some("http://a/x"));
    assert_eq!(canonicalize("http://a/x"), some("http://a/x"));
    assert_eq!(canonicalize("http://a"), some("http://a/"));
    assert_eq!(canonicalize("HTTP://A/Path?x"), some("http://a/Path"));
    assert_eq!(canonicalize("not a url"), None);
    assert_eq!(canonicalize("/relative"), None);
}

#[test]
fn canonical_form_is_stable() {
    for url in ["http://a/x?q=1#frag", "https://example.org/a/b/?#", "http://a/"] {
        let once = canonicalize(url).unwrap();
        assert_eq!(canonicalize(&once), Some(once.clone()));
    }
}

#[test]
fn same_origin_is_scheme_host_and_port() {
    assert!(have_same_origin("http://a/x", "http://a/y?z"));
    assert!(have_same_origin("http://a:80/x", "http://a/"));
    assert!(!have_same_origin("http://a/", "http://b/"));
    assert!(!have_same_origin("http://a/", "https://a/"));
    assert!(!have_same_origin("http://a:8080/", "http://a/"));
    assert!(!have_same_origin("http://a/", "nonsense"));
    assert!(!have_same_origin("nonsense", "nonsense"));
    assert!(!have_same_origin("mailto:x@y.z", "mailto:x@y.z"));
}

#[test]
fn blacklist_of_extensions() {
    let blocked = [
        "pdf", "png", "jpg", "jpeg", "gif", "xml", "rss", "css", "js", "mov", "svg", "ps", "z",
        "zip", "gz", "rar", "json", "webp", "mp4", "mp3", "bz2", "tar", "webm", "iso", "dsk",
    ];
    for ext in blocked {
        assert!(!link_looks_interesting(&format!("http://a/file.{}", ext)), "{}", ext);
        assert!(
            !link_looks_interesting(&format!("http://a/file.{}", ext.to_uppercase())),
            "{}",
            ext
        );
    }
    assert!(link_looks_interesting("http://a/file.html"));
    assert!(link_looks_interesting("http://a/"));
    assert!(link_looks_interesting("http://a/pdf"));
    assert!(link_looks_interesting("http://a/file.pdf/"));
    assert!(link_looks_interesting("http://a/file.pdfx"));
    assert!(link_looks_interesting("http://a/file.mod"));
    assert!(link_looks_interesting(""));
    assert!(link_looks_interesting("z"));
    assert!(!link_looks_interesting(".z"));
    assert!(!link_looks_interesting("http://a/archive.tar.GZ"));
}

#[test]
fn extension_and_case_helpers() {
    let url: Vec<char> = "http://a/File.PdF".chars().collect();
    assert!(has_extension(&url, "pdf"));
    assert!(!has_extension(&url, "df"));
    assert!(!has_extension(&url, "png"));
    assert!(!has_extension(&"pdf".chars().collect(), "pdf"));
    assert_eq!(to_ascii_lower('A'), 'a');
    assert_eq!(to_ascii_lower('Z'), 'z');
    assert_eq!(to_ascii_lower('a'), 'a');
    assert_eq!(to_ascii_lower('É'), 'É');
    assert_eq!(to_ascii_lower('['), '[');
    assert_eq!(to_ascii_lower('@'), '@');
}

#[test]
fn links_resolve_against_the_base() {
    assert_eq!(resolve_link("http://a/dir/page", "http://b/x"), some("http://b/x"));
    assert_eq!(resolve_link("http://a/dir/page", "other"), some("http://a/dir/other"));
    assert_eq!(resolve_link("http://a/dir/page", "/top?q"), some("http://a/top?q"));
    assert_eq!(resolve_link("http://a/dir/page", "//b/x"), some("http://b/x"));
    assert_eq!(resolve_link("http://a/dir/page", "#top"), some("http://a/dir/page#top"));
    assert_eq!(resolve_link("http://a/", "http://[bad"), None);
    assert_eq!(resolve_link("no base", "relative"), None);
}

fn origin(scheme: &str, host: &str, port: u16) -> Option<SiteOrigin> {
    Some(SiteOrigin { scheme: scheme.to_string(), host: host.to_string(), port })
}

#[test]
fn decision_on_a_resolved_link() {
    let a = origin("http", "a", 80);
    let target = some("http://a/x");
    assert_eq!(decide_link(&a, &origin("http", "a", 80), &some("/x"), &some("/"), target.clone()), target);
    assert_eq!(decide_link(&a, &origin("https", "a", 80), &some("/x"), &some("/"), target.clone()), None);
    assert_eq!(decide_link(&a, &origin("http", "b", 80), &some("/x"), &some("/"), target.clone()), None);
    assert_eq!(decide_link(&a, &origin("http", "a", 81), &some("/x"), &some("/"), target.clone()), None);
    assert_eq!(decide_link(&a, &None, &some("/x"), &some("/"), target.clone()), None);
    assert_eq!(decide_link(&None, &None, &some("/x"), &some("/"), target.clone()), None);
    assert_eq!(decide_link(&a, &a, &some("/"), &some("/"), target.clone()), None);
    assert_eq!(decide_link(&a, &a, &None, &some("/"), target.clone()), None);
    assert_eq!(decide_link(&a, &a, &some("/x"), &None, target.clone()), None);
    assert_eq!(decide_link(&a, &a, &some("/x"), &some("/"), None), None);
    assert_eq!(decide_link(&a, &a, &some("/x.pdf"), &some("/"), some("http://a/x.pdf")), None);
}

#[test]
fn followed_links_stay_on_the_origin() {
    let base = "http://a/dir/page";
    assert_eq!(follow_link(base, "other.html?x=1#top"), some("http://a/dir/other.html"));
    assert_eq!(follow_link(base, "http://a/elsewhere"), some("http://a/elsewhere"));
    assert_eq!(follow_link(base, "http://b/elsewhere"), None);
    assert_eq!(follow_link(base, "https://a/elsewhere"), None);
    assert_eq!(follow_link(base, "//b/elsewhere"), None);
    assert_eq!(follow_link(base, "http://a/dir/page?again"), None);
    assert_eq!(follow_link(base, "#fragment"), None);
    assert_eq!(follow_link(base, "paper.pdf"), None);
    assert_eq!(follow_link(base, "paper.PDF?download"), None);
    assert_eq!(follow_link(base, "mailto:someone@a"), None);
    assert_eq!(follow_link(base, "http://[bad"), None);
}

#[test]
fn extraction_keeps_the_order_of_the_links() {
    let hrefs = vec![
        some("/one"),
        None,
        some("http://b/"),
        some("two?x"),
        some("/one"),
        some("pic.png"),
        some("http://[bad"),
    ];
    assert_eq!(
        extract_links_same_domain("http://a/", &hrefs),
        vec!["http://a/one".to_string(), "http://a/two".to_string(), "http://a/one".to_string()]
    );
    assert_eq!(extract_links_same_domain("http://a/", &Vec::new()), Vec::<String>::new());
}
