use wikicrawler::bindings::UrlParts;
use wikicrawler::canonical::{
    candidate_of_absolute, candidate_of_relative, clean_url, clean_url_given, decode_title,
    finish_candidate, is_relative, prepare,
};

fn canon(raw: &str) -> Option<String> {
    clean_url(raw)
}

fn wiki(title: &str) -> Option<String> {
    Some(format!("https://fr.wikipedia.org/wiki/{}", title))
}

#[test]
fn relative_wiki_path_gets_the_origin() {
    assert_eq!(canon("/wiki/Science"), wiki("Science"));
}

#[test]
fn surrounding_whitespace_is_trimmed() {
    assert_eq!(canon("  /wiki/Science \n"), wiki("Science"));
    assert_eq!(canon("\u{3000}/wiki/Science\u{a0}"), wiki("Science"));
}

#[test]
fn same_page_fragment_is_rejected() {
    assert_eq!(canon("#cite_note-1"), None);
    assert_eq!(canon("   #top"), None);
}

#[test]
fn protocol_relative_link_becomes_secure() {
    assert_eq!(canon("//fr.wikipedia.org/wiki/Chat"), wiki("Chat"));
    assert_eq!(canon("//en.wikipedia.org/wiki/Cat"), None);
}

#[test]
fn query_rewrite_matches_wiki_path() {
    let rewritten = canon("/w/index.php?title=Chat&action=edit");
    assert_eq!(rewritten, wiki("Chat"));
    assert_eq!(rewritten, canon("/wiki/Chat"));
}

#[test]
fn index_link_without_title_is_rejected() {
    assert_eq!(canon("/w/index.php?action=edit"), None);
}

#[test]
fn index_link_title_runs_to_the_end_without_ampersand() {
    assert_eq!(canon("/w/index.php?action=edit&title=Chien"), wiki("Chien"));
}

#[test]
fn namespace_titles_are_rejected() {
    assert_eq!(canon("/wiki/Cat\u{e9}gorie:Sciences"), None);
    assert_eq!(canon("/wiki/Cat%C3%A9gorie:Sciences"), None);
    assert_eq!(canon("/wiki/Discussion%3AChat"), None);
    assert_eq!(canon("https://fr.wikipedia.org/wiki/Aide:Accueil"), None);
    assert_eq!(canon("/w/index.php?title=Sp%C3%A9cial:Recherche&search=x"), None);
}

#[test]
fn apostrophe_escape_stays_encoded() {
    assert_eq!(canon("/wiki/Le%27Page"), wiki("Le%27Page"));
    assert_eq!(canon("https://fr.wikipedia.org/wiki/Le%27Page"), wiki("Le%27Page"));
}

#[test]
fn literal_apostrophe_is_written_as_its_escape() {
    assert_eq!(canon("/wiki/Le'Page"), wiki("Le%27Page"));
    assert_eq!(canon("https://fr.wikipedia.org/wiki/Le'Page"), wiki("Le%27Page"));
    assert_eq!(canon("/wiki/''"), wiki("%27%27"));
}

#[test]
fn apostrophe_and_its_escape_give_one_identity() {
    let escaped = canon("/wiki/Le%27Page");
    assert!(escaped.is_some());
    assert_eq!(escaped, canon("/wiki/Le'Page"));
    assert_eq!(canon("/wiki/L%27%C3%A9t%C3%A9"), canon("/wiki/L'\u{e9}t\u{e9}"));
    assert_eq!(canon("/w/index.php?title=L%27A"), canon("/w/index.php?title=L'A"));
}

#[test]
fn other_escapes_are_decoded_beside_an_apostrophe() {
    assert_eq!(canon("/wiki/L%27%C3%A9t%C3%A9"), wiki("L%27\u{e9}t\u{e9}"));
    assert_eq!(canon("/wiki/Caf%C3%A9"), wiki("Caf\u{e9}"));
    assert_eq!(canon("/wiki/A%2FB"), wiki("A/B"));
}

#[test]
fn no_text_of_a_title_is_taken_for_the_escape() {
    assert_eq!(canon("/wiki/___APOSTROPHE___"), wiki("___APOSTROPHE___"));
    assert_eq!(canon("/wiki/%5F%5F%5FAPOSTROPHE%5F%5F%5F"), wiki("___APOSTROPHE___"));
    assert_eq!(canon("/wiki/A_B"), wiki("A_B"));
}

#[test]
fn malformed_escapes_are_left_alone() {
    assert_eq!(canon("/wiki/100%"), wiki("100%"));
    assert_eq!(canon("/wiki/A%2"), wiki("A%2"));
    assert_eq!(canon("/wiki/A%zzB"), wiki("A%zzB"));
}

#[test]
fn invalid_utf8_is_repaired() {
    assert_eq!(canon("/wiki/A%FFB"), wiki("A\u{fffd}B"));
}

#[test]
fn absolute_link_loses_query_and_fragment() {
    assert_eq!(canon("https://fr.wikipedia.org/wiki/Chat?action=history#top"), wiki("Chat"));
}

#[test]
fn absolute_link_is_normalised_by_the_parser() {
    assert_eq!(canon("HTTPS://FR.Wikipedia.ORG/wiki/Chat"), wiki("Chat"));
    assert_eq!(canon("https://fr.wikipedia.org/wiki/Caf\u{e9}"), wiki("Caf\u{e9}"));
    assert_eq!(canon("https://fr.wikipedia.org:443/wiki/Chat"), wiki("Chat"));
}

#[test]
fn absolute_index_link_uses_the_title_as_it_is_written() {
    assert_eq!(
        canon("https://fr.wikipedia.org/w/index.php?title=Chat&action=edit"),
        wiki("Chat")
    );
    assert_eq!(
        canon("https://fr.wikipedia.org/w/index.php?action=edit&title=Le%27Chat"),
        wiki("Le%27Chat")
    );
    assert_eq!(
        canon("https://fr.wikipedia.org/w/index.php?title=Caf%C3%A9#Histoire"),
        wiki("Caf\u{e9}")
    );
    assert_eq!(canon("https://fr.wikipedia.org/w/index.php?subtitle=Chat"), None);
    assert_eq!(canon("https://fr.wikipedia.org/w/index.php?action=edit"), None);
}

#[test]
fn other_schemes_hosts_and_paths_are_rejected() {
    assert_eq!(canon("http://fr.wikipedia.org/wiki/Chat"), None);
    assert_eq!(canon("https://en.wikipedia.org/wiki/Cat"), None);
    assert_eq!(canon("https://fr.wikipedia.org/static/logo.png"), None);
    assert_eq!(canon("https://fr.wikipedia.org:8443/wiki/Chat"), None);
    assert_eq!(canon("https://user@fr.wikipedia.org/wiki/Chat"), None);
    assert_eq!(canon("mailto:someone@example.org"), None);
    assert_eq!(canon("/about"), None);
    assert_eq!(canon("wiki/Chat"), None);
    assert_eq!(canon(""), None);
    assert_eq!(canon("   "), None);
}

#[test]
fn link_that_begins_with_a_slash_is_relative_whatever_follows() {
    assert_eq!(canon("/wiki/Chat://x"), None);
    assert_eq!(canon("/w/index.php?title=Chat&returnto=https://example.org/"), wiki("Chat"));
    assert_eq!(canon("/wiki/Chat?from=https://example.org/"), wiki("Chat"));
}

#[test]
fn index_link_needs_the_endpoint_and_a_pair_named_title() {
    assert_eq!(canon("/w/index.php?subtitle=Chat"), None);
    assert_eq!(canon("/w/index.php?subtitle=Chat&title=Chien"), wiki("Chien"));
    assert_eq!(canon("/w/index.php5?title=A"), None);
    assert_eq!(canon("/w/index.phpx"), None);
    assert_eq!(canon("/w/index.php"), None);
    assert_eq!(canon("/w/index.php?"), None);
    assert_eq!(canon("/w/index.php?Title=A"), None);
    assert_eq!(canon("/w/index.php?x=title=A"), None);
    assert_eq!(canon("/w/index.php?a=b#title=A"), None);
    assert_eq!(canon("/w/index.php?title=A#b&title=C"), wiki("A"));
    assert_eq!(canon("/w/index.php?title=A=B&c"), wiki("A=B"));
    assert_eq!(canon("/w/index.php?title=A&title=B"), wiki("A"));
    assert_eq!(canon("/w/index.php?title"), wiki(""));
    assert_eq!(canon("/w/index.php?&&title=A"), wiki("A"));
}

#[test]
fn every_output_has_the_prefix_and_no_colon_in_its_title() {
    let inputs = [
        "/wiki/Science",
        "//fr.wikipedia.org/wiki/Chat",
        "/w/index.php?title=Chat&action=edit",
        "https://fr.wikipedia.org/wiki/Chat?x=1#y",
        "/wiki/Le%27Page",
        "/wiki/A%FFB",
    ];
    for raw in inputs {
        let url = canon(raw).expect("accepted");
        assert!(url.starts_with("https://fr.wikipedia.org/wiki/"));
        assert!(!url["https://fr.wikipedia.org/wiki/".len()..].contains(':'));
    }
}

#[test]
fn canonical_urls_of_plain_titles_are_fixed_points() {
    for raw in ["/wiki/Science", "/wiki/Caf%C3%A9", "/w/index.php?title=Chat&action=edit"] {
        let once = canon(raw).expect("accepted");
        assert_eq!(canon(&once), Some(once.clone()));
    }
}

fn parts(scheme: &str, host: Option<&str>, path: &str, query: Option<&str>, stripped: &str) -> Option<UrlParts> {
    Some(UrlParts {
        scheme: scheme.to_string(),
        host: host.map(|h| h.to_string()),
        path: path.to_string(),
        query: query.map(|q| q.to_string()),
        stripped: stripped.to_string(),
    })
}

fn text(s: &str) -> Option<Vec<char>> {
    Some(s.chars().collect())
}

#[test]
fn absolute_candidate_of_a_wiki_path_is_the_stripped_url() {
    let p = parts("https", Some("fr.wikipedia.org"), "/wiki/Chat", Some("a=b"), "https://fr.wikipedia.org/wiki/Chat");
    assert_eq!(candidate_of_absolute(&p), text("https://fr.wikipedia.org/wiki/Chat"));
    let with_port = parts("https", Some("fr.wikipedia.org"), "/wiki/Chat", None, "https://fr.wikipedia.org:8443/wiki/Chat");
    assert_eq!(
        candidate_of_absolute(&with_port),
        text("https://fr.wikipedia.org:8443/wiki/Chat")
    );
    assert_eq!(clean_url_given("x", &with_port), None);
}

#[test]
fn absolute_candidate_of_the_index_endpoint_is_its_first_title() {
    let p = parts(
        "https",
        Some("fr.wikipedia.org"),
        "/w/index.php",
        Some("action=edit&title=Chat&title=Chien"),
        "https://fr.wikipedia.org/w/index.php",
    );
    assert_eq!(candidate_of_absolute(&p), text("https://fr.wikipedia.org/wiki/Chat"));
    let none = parts("https", Some("fr.wikipedia.org"), "/w/index.php", Some("Title=Chat"), "x");
    assert_eq!(candidate_of_absolute(&none), None);
}

#[test]
fn absolute_candidate_rejects_other_schemes_hosts_and_paths() {
    let ok = "https://fr.wikipedia.org/wiki/Chat";
    assert_eq!(candidate_of_absolute(&None), None);
    assert_eq!(candidate_of_absolute(&parts("http", Some("fr.wikipedia.org"), "/wiki/Chat", None, ok)), None);
    assert_eq!(candidate_of_absolute(&parts("https", Some("en.wikipedia.org"), "/wiki/Chat", None, ok)), None);
    assert_eq!(candidate_of_absolute(&parts("https", None, "/wiki/Chat", None, ok)), None);
    assert_eq!(candidate_of_absolute(&parts("https", Some("fr.wikipedia.org"), "/wiki", None, ok)), None);
    assert_eq!(candidate_of_absolute(&parts("https", Some("fr.wikipedia.org"), "/w/index.php5", Some("title=x"), ok)), None);
}

#[test]
fn given_parse_is_ignored_for_fragments_and_relative_links() {
    let p = parts("https", Some("fr.wikipedia.org"), "/wiki/Chat", None, "https://fr.wikipedia.org/wiki/Chat");
    assert_eq!(clean_url_given("#x", &p), None);
    assert_eq!(clean_url_given("/wiki/Chien", &p), wiki("Chien"));
    assert_eq!(clean_url_given("anything-absolute", &p), wiki("Chat"));
    assert_eq!(clean_url_given("anything-absolute", &None), None);
}

#[test]
fn stages_of_the_canonicaliser() {
    let chars = |s: &str| s.chars().collect::<Vec<char>>();
    assert_eq!(prepare("  //fr.wikipedia.org/wiki/Chat "), text("https://fr.wikipedia.org/wiki/Chat"));
    assert_eq!(prepare(" #top"), None);
    assert_eq!(prepare(""), text(""));
    assert!(is_relative(&chars("/wiki/Chat")));
    assert!(is_relative(&chars("/wiki/a://b")));
    assert!(!is_relative(&chars("wiki/Chat")));
    assert!(!is_relative(&chars("")));
    assert_eq!(candidate_of_relative(&chars("/wiki/A?b#c")), text("https://fr.wikipedia.org/wiki/A?b#c"));
    assert_eq!(candidate_of_relative(&chars("/w/index.php?title=A%27b&x")), text("https://fr.wikipedia.org/wiki/A%27b"));
    assert_eq!(candidate_of_relative(&chars("/w/index.php?subtitle=A&title=B")), text("https://fr.wikipedia.org/wiki/B"));
    assert_eq!(candidate_of_relative(&chars("/w/index.php?subtitle=A")), None);
    assert_eq!(candidate_of_relative(&chars("/w/api.php?title=A")), None);
    assert_eq!(decode_title(&chars("L%27%C3%A9t%C3%A9%3F")), chars("L%27\u{e9}t\u{e9}?"));
    assert_eq!(decode_title(&chars("%2527")), chars("%27"));
    assert_eq!(finish_candidate(&chars("https://fr.wikipedia.org/wiki/")), text("https://fr.wikipedia.org/wiki/"));
    assert_eq!(finish_candidate(&chars("https://fr.wikipedia.org/wiki")), None);
    assert_eq!(finish_candidate(&chars("https://fr.wikipedia.org/wiki/A%3AB")), None);
    assert_eq!(finish_candidate(&chars("https://fr.wikipedia.org/wiki/A?b#c")), text("https://fr.wikipedia.org/wiki/A"));
    assert_eq!(finish_candidate(&chars("https://fr.wikipedia.org/wiki/A#b?c:d")), text("https://fr.wikipedia.org/wiki/A"));
    assert_eq!(decode_title(&chars("Le'Page")), chars("Le%27Page"));
    assert_eq!(decode_title(&chars("%27")), chars("%27"));
    assert_eq!(decode_title(&chars("%2%27")), chars("%2%27"));
    assert_eq!(decode_title(&chars("")), chars(""));
}

#[test]
fn relative_wiki_link_loses_query_and_fragment() {
    assert_eq!(canon("/wiki/Chat?action=raw"), wiki("Chat"));
    assert_eq!(canon("/wiki/Chat#Histoire"), wiki("Chat"));
    assert_eq!(canon("/wiki/Chat#Histoire?x"), wiki("Chat"));
    assert_eq!(canon("/wiki/Chat?x:y"), wiki("Chat"));
    assert_eq!(canon("/w/index.php?title=Quoi?&action=edit"), wiki("Quoi"));
}

#[test]
fn output_without_escaped_marks_has_no_query_or_fragment() {
    for raw in [
        "/wiki/Chat?action=raw",
        "/wiki/Chat#Histoire",
        "https://fr.wikipedia.org/wiki/Chat?x=1#y",
        "//fr.wikipedia.org/wiki/Chat?x",
        "/w/index.php?title=Chat?x&action=edit#top",
        "/wiki/Le'Page?x#y",
    ] {
        let url = canon(raw).expect("accepted");
        assert!(!url.contains('?') && !url.contains('#'), "{}", url);
    }
}

#[test]
fn decoding_other_escapes_brings_in_no_query_or_fragment() {
    for raw in [
        "/wiki/Caf%C3%A9?x=1#y",
        "/wiki/%FF#y",
        "/wiki/%3",
        "/wiki/A%3%46",
        "/wiki/%E2%9D%93",
        "https://fr.wikipedia.org/wiki/Caf%C3%A9?x",
        "/w/index.php?title=%25&x=%3F",
    ] {
        let url = canon(raw).expect("accepted");
        assert!(!url.contains('?') && !url.contains('#'), "{}", url);
    }
}

#[test]
fn escaped_question_mark_belongs_to_the_title() {
    assert_eq!(canon("/wiki/Quoi%3F"), wiki("Quoi?"));
    assert_eq!(canon("/wiki/C%23"), wiki("C#"));
}

#[test]
fn canonicalising_twice_can_differ_from_once() {
    assert_eq!(canon("/wiki/A%20"), wiki("A "));
    assert_eq!(canon("https://fr.wikipedia.org/wiki/A "), wiki("A"));
    assert_eq!(canon("/wiki/%2541"), wiki("%41"));
    assert_eq!(canon("https://fr.wikipedia.org/wiki/%41"), wiki("A"));
}

#[test]
fn canonical_urls_with_apostrophe_escapes_are_fixed_points() {
    for raw in ["/wiki/Le%27Page", "/wiki/L%27%27A", "/w/index.php?title=%27&action=edit"] {
        let once = canon(raw).expect("accepted");
        assert!(once.contains("%27"));
        assert_eq!(canon(&once), Some(once.clone()));
    }
}
