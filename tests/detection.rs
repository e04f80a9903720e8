use std::collections::HashMap;
use wappalyzer::pattern::{check_text, fill_template, matchable_expression, version_in, version_template_of};
use wappalyzer::wapp::{check, infer_version, App, AppsJsonData, Category, Cookie, RawData, Tech};
use wappalyzer::{analyze, WappError};

fn s(x: &str) -> String {
    x.to_string()
}

fn pairs(v: &[(&str, &str)]) -> Vec<(String, String)> {
    v.iter().map(|(a, b)| (s(a), s(b))).collect()
}

fn app(name: &str, cat: u32) -> App {
    App {
        name: s(name),
        cats: vec![cat],
        website: String::new(),
        priority: 0,
        html: vec![],
        headers: vec![],
        cookies: vec![],
        js: vec![],
        url: String::new(),
        meta: vec![],
        icon: String::new(),
        implies: vec![],
        excludes: vec![],
        script: vec![],
    }
}

fn categories() -> HashMap<u32, Category> {
    let mut m = HashMap::new();
    m.insert(12, Category { name: s("JavaScript frameworks"), priority: 8 });
    m.insert(22, Category { name: s("Web servers"), priority: 8 });
    m.insert(27, Category { name: s("Programming languages"), priority: 5 });
    m
}

fn page() -> RawData {
    RawData { headers: vec![], cookies: vec![], meta_tags: vec![], script_tags: vec![], html: String::new() }
}

fn tech(category: &str, name: &str, version: Option<&str>) -> Tech {
    Tech { category: s(category), name: s(name), version: version.map(s) }
}

#[test]
fn test_check_text() {
    assert!(check_text("foo", "somefood"));
    assert!(!check_text("bar", "somefood"));
    assert!(check_text("[CK]amva", "Kamva"));
    assert!(!check_text("[CK]amva", "Lamva"));
    assert!(check_text("cf\\.kampyle\\.com/k_button\\.js", "some cf.kampyle.com/k_button.js"));
    assert!(!check_text("cf\\.kampyle\\.com/k_button\\.js", "some cXf.kampyle.com/k_button.js"));
    assert!(check_text("optimizely\\.com.*\\.js", "cdn.optimizely.com/js/711892001.js"));
    assert!(!check_text(
        "<link[^>]+?href=[^\"]/css/([\\d.]+)/bootstrap\\.(?:min\\.)?css\\;version:\\1",
        "cdn.optimizely.com/js/711892001.js"
    ));
}

#[test]
fn pattern_ignores_case() {
    assert!(check_text("foo", "SomeFOOd"));
    assert!(check_text("FOO", "somefood"));
}

#[test]
fn pattern_negative_control() {
    assert!(!check_text("bar", "somefood"));
}

#[test]
fn directives_are_not_matched() {
    assert_eq!(matchable_expression("foo\\;version:\\1"), "(?i)foo");
    assert_eq!(matchable_expression("plain"), "(?i)plain");
    assert!(check_text("foo\\;version:bar", "foo"));
    assert!(!check_text("zzz\\;foo", "foo"));
    // the text after the delimiter would not compile on its own
    assert!(check_text("foo\\;version:(", "a foo"));
}

#[test]
fn invalid_expression_never_matches() {
    assert!(!check_text("(", "("));
    assert!(!check_text("[a-", "a"));
}

#[test]
fn version_templates_are_found() {
    assert_eq!(version_template_of("x\\;version:\\1"), Some(s("\\1")));
    assert_eq!(version_template_of("x\\;confidence:50\\;version:\\2.\\1"), Some(s("\\2.\\1")));
    assert_eq!(version_template_of("x\\;confidence:50"), None);
    assert_eq!(version_template_of("x"), None);
}

#[test]
fn templates_are_filled_from_groups() {
    let groups = vec![Some(s("nginx/1.18")), Some(s("1")), None, Some(s("18"))];
    assert_eq!(fill_template("\\1.\\3", &groups), "1.18");
    assert_eq!(fill_template("\\2", &groups), "");
    assert_eq!(fill_template("\\9", &groups), "");
    assert_eq!(fill_template("v\\0", &groups), "v\\0");
    assert_eq!(fill_template("", &groups), "");
}

#[test]
fn version_read_off_a_text() {
    assert_eq!(version_in("nginx/([\\d.]+)\\;version:\\1", "server nginx/1.18"), Some(s("1.18")));
    assert_eq!(version_in("nginx/([\\d.]+)", "nginx/1.18"), None);
    assert_eq!(version_in("nginx\\;version:\\1", "nginx/1.18"), None);
    assert_eq!(version_in("apache/([\\d.]+)\\;version:\\1", "nginx/1.18"), None);
}

#[test]
fn version_inference_follows_signal_order() {
    let mut a = app("Nginx", 22);
    a.html = vec![s("nginx v([\\d.]+)\\;version:\\1")];
    a.headers = pairs(&[("Server", "nginx/([\\d.]+)\\;version:\\1")]);
    let mut raw = page();
    raw.headers = pairs(&[("server", "nginx/1.18")]);
    raw.html = s("powered by nginx v2.0");
    assert_eq!(infer_version(&a, &raw), Some(s("1.18")));
    raw.headers = vec![];
    assert_eq!(infer_version(&a, &raw), Some(s("2.0")));
}

#[test]
fn header_names_are_lowercased() {
    let mut a = app("Nginx", 22);
    a.headers = pairs(&[("Server", "nginx")]);
    let mut raw = page();
    raw.headers = pairs(&[("server", "nginx/1.18")]);
    assert!(a.check(&raw));
    raw.headers = pairs(&[("Server", "nginx/1.18")]);
    assert!(!a.check(&raw));
}

#[test]
fn header_scenario_without_group() {
    let mut a = app("Nginx", 22);
    a.headers = pairs(&[("Server", "nginx\\;version:\\1")]);
    let catalog = AppsJsonData::new(vec![a], categories()).unwrap();
    let mut raw = page();
    raw.headers = pairs(&[("server", "nginx/1.18")]);
    assert_eq!(check(&catalog, &raw), vec![tech("Web servers", "Nginx", None)]);
}

#[test]
fn jquery_scenario() {
    let mut a = app("jQuery", 12);
    a.html = vec![s("jquery(?:\\.min)?\\.js(?:\\?ver=([\\d.]+))?\\;version:\\1")];
    let catalog = AppsJsonData::new(vec![a], categories()).unwrap();
    let mut raw = page();
    raw.html = s("<script src=\"jquery.min.js\"></script>");
    assert_eq!(check(&catalog, &raw), vec![tech("JavaScript frameworks", "jQuery", None)]);
    raw.html = s("<script src=\"jquery.min.js?ver=3.5.1\"></script>");
    assert_eq!(check(&catalog, &raw), vec![tech("JavaScript frameworks", "jQuery", Some("3.5.1"))]);
}

#[test]
fn implied_technologies_are_detected() {
    let mut wp = app("WordPress", 12);
    wp.meta = pairs(&[("generator", "WordPress ?([\\d.]+)?\\;version:\\1")]);
    wp.implies = vec![s("PHP")];
    let mut php = app("PHP", 27);
    php.headers = pairs(&[("X-Powered-By", "php/?([\\d.]+)?\\;version:\\1")]);
    let catalog = AppsJsonData::new(vec![php, wp], categories()).unwrap();
    let mut raw = page();
    raw.meta_tags = pairs(&[("generator", "WordPress 5.4")]);
    let found = check(&catalog, &raw);
    assert_eq!(found.len(), 2);
    assert!(found.contains(&tech("JavaScript frameworks", "WordPress", Some("5.4"))));
    assert!(found.contains(&tech("Programming languages", "PHP", None)));
    raw.headers = pairs(&[("x-powered-by", "PHP/7.4")]);
    let found = check(&catalog, &raw);
    assert_eq!(found.len(), 2);
    assert!(found.contains(&tech("Programming languages", "PHP", Some("7.4"))));
}

#[test]
fn missing_implication_is_skipped() {
    let mut wp = app("WordPress", 12);
    wp.html = vec![s("wp-content")];
    wp.implies = vec![s("NoSuchThing"), s("PHP")];
    let php = app("PHP", 27);
    let catalog = AppsJsonData::new(vec![wp, php], categories()).unwrap();
    let mut raw = page();
    raw.html = s("/wp-content/themes");
    let found = check(&catalog, &raw);
    assert_eq!(found.len(), 2);
    assert!(found.contains(&tech("JavaScript frameworks", "WordPress", None)));
    assert!(found.contains(&tech("Programming languages", "PHP", None)));
    assert!(found.iter().all(|t| t.name != "NoSuchThing"));
}

#[test]
fn invalid_pattern_does_not_stop_valid_one() {
    let mut a = app("Kamva", 12);
    a.html = vec![s("(unclosed"), s("[CK]amva")];
    let catalog = AppsJsonData::new(vec![a], categories()).unwrap();
    let mut raw = page();
    raw.html = s("Kamva");
    assert_eq!(check(&catalog, &raw), vec![tech("JavaScript frameworks", "Kamva", None)]);
}

#[test]
fn empty_cookie_rule_needs_presence_only() {
    let mut a = app("CloudFlare", 22);
    a.cookies = pairs(&[("__cfduid", "")]);
    let mut raw = page();
    raw.cookies = vec![Cookie { name: s("__cfduid"), value: s("anything at all") }];
    assert!(a.check(&raw));
    raw.cookies = vec![Cookie { name: s("__cfduid"), value: String::new() }];
    assert!(a.check(&raw));
    raw.cookies = vec![Cookie { name: s("other"), value: s("x") }];
    assert!(!a.check(&raw));
}

#[test]
fn cookie_rule_with_pattern_tests_value() {
    let mut a = app("CodeIgniter", 12);
    a.cookies = pairs(&[("ci_session", "^abc")]);
    let mut raw = page();
    raw.cookies = vec![Cookie { name: s("ci_session"), value: s("abcdef") }];
    assert!(a.check(&raw));
    raw.cookies = vec![Cookie { name: s("ci_session"), value: s("xyz") }];
    assert!(!a.check(&raw));
}

#[test]
fn script_keys_match_script_tags() {
    let mut a = app("Angular", 12);
    a.js = pairs(&[("angular\\.version", "")]);
    let mut raw = page();
    raw.script_tags = vec![s("<script>x()</script>"), s("<script>angular.version.full</script>")];
    assert!(a.check(&raw));
    raw.script_tags = vec![s("<script>x()</script>")];
    assert!(!a.check(&raw));
}

#[test]
fn no_signal_means_no_match() {
    let a = app("Nothing", 12);
    assert!(!a.check(&page()));
    let catalog = AppsJsonData::new(vec![a], categories()).unwrap();
    assert!(check(&catalog, &page()).is_empty());
}

#[test]
fn detection_is_deterministic_and_order_free() {
    let mut a = app("A", 12);
    a.html = vec![s("alpha")];
    a.implies = vec![s("B")];
    let mut b = app("B", 22);
    b.html = vec![s("beta")];
    let mut a2 = app("A", 12);
    a2.html = vec![s("alpha")];
    a2.implies = vec![s("B")];
    let mut b2 = app("B", 22);
    b2.html = vec![s("beta")];
    let c1 = AppsJsonData::new(vec![a, b], categories()).unwrap();
    let c2 = AppsJsonData::new(vec![b2, a2], categories()).unwrap();
    let mut raw = page();
    raw.html = s("alpha beta");
    let r1 = check(&c1, &raw);
    let r2 = check(&c2, &raw);
    assert_eq!(r1.len(), 2);
    assert_eq!(r2.len(), 2);
    for t in &r1 {
        assert!(r2.contains(t));
    }
    assert_eq!(check(&c1, &raw), r1);
}

#[test]
fn catalog_rejects_bad_signatures() {
    let mut no_cat = app("X", 12);
    no_cat.cats = vec![];
    assert!(matches!(AppsJsonData::new(vec![no_cat], categories()), Err(WappError::Other(_))));
    assert!(matches!(AppsJsonData::new(vec![app("X", 99)], categories()), Err(WappError::Other(_))));
    assert!(matches!(
        AppsJsonData::new(vec![app("X", 12), app("X", 22)], categories()),
        Err(WappError::Other(_))
    ));
    assert!(AppsJsonData::new(vec![app("X", 12), app("Y", 22)], categories()).is_ok());
}

#[test]
fn category_names_resolve() {
    let catalog = AppsJsonData::new(vec![app("X", 22)], categories()).unwrap();
    assert_eq!(catalog.category_name(22), Some(s("Web servers")));
    assert_eq!(catalog.category_name(5), None);
    assert_eq!(catalog.apps()[0].category_name(&catalog), "Web servers");
    assert_eq!(Tech::from(&catalog.apps()[0], &catalog), tech("Web servers", "X", None));
    assert_eq!(
        Tech::from_with_version(&catalog.apps()[0], Some(s("2")), &catalog),
        tech("Web servers", "X", Some("2"))
    );
    assert_eq!(catalog.position(&s("X")), Some(0));
    assert_eq!(catalog.position(&s("Y")), None);
}

#[test]
fn getters_return_rules() {
    let mut a = app("X", 12);
    a.html = vec![s("h")];
    a.script = vec![s("s")];
    a.headers = pairs(&[("H", "v")]);
    a.cookies = pairs(&[("c", "")]);
    a.meta = pairs(&[("m", "x")]);
    a.js = pairs(&[("j", "")]);
    assert_eq!(a.html(), &[s("h")]);
    assert_eq!(a.script(), &[s("s")]);
    assert_eq!(a.headers(), &pairs(&[("H", "v")]));
    assert_eq!(a.cookies(), &pairs(&[("c", "")]));
    assert_eq!(a.meta(), &pairs(&[("m", "x")]));
    assert_eq!(a.js(), &pairs(&[("j", "")]));
}

#[test]
fn analysis_of_unread_page_is_an_error() {
    let catalog = AppsJsonData::new(vec![app("X", 12)], categories()).unwrap();
    let r = analyze(s("https://example.com/"), &catalog, None);
    assert_eq!(r.url, "https://example.com/");
    assert_eq!(r.result.err(), Some(s("Error")));
    assert!(r.scan_time.is_none());
}

#[test]
fn analysis_collects_detections() {
    let mut a = app("X", 12);
    a.html = vec![s("xx")];
    let catalog = AppsJsonData::new(vec![a], categories()).unwrap();
    let mut raw = page();
    raw.html = s("axxb");
    let r = analyze(s("https://example.com/"), &catalog, Some(&raw));
    assert_eq!(r.result.ok(), Some(vec![tech("JavaScript frameworks", "X", None)]));
}

#[test]
fn error_messages_name_their_kind() {
    assert_eq!(WappError::Fetch(s("timeout")).message(), "Fetch/timeout");
    assert_eq!(WappError::Analyze(s("x")).message(), "Analyze/x");
    assert_eq!(WappError::Other(s("")).message(), "Other/");
}
