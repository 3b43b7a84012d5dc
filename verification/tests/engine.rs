use wikicrawler::canonical::clean_url;
use wikicrawler::engine::{
    canonical_links_of, decide_boot, extract_links, links_among, links_of_outcome, page_file_name,
    BootAction, Config, Engine, FetchOutcome, Phase, StoreWrite, MAX_BODY_BYTES,
};
use wikicrawler::frontier::{EntryState, Frontier};

const SEED: &str = "https://fr.wikipedia.org/wiki/Science";

fn wiki(title: &str) -> String {
    format!("https://fr.wikipedia.org/wiki/{}", title)
}

fn plain(writes: &[StoreWrite]) -> Vec<(String, EntryState)> {
    writes.iter().map(|w| (w.url.clone(), w.state)).collect()
}

fn sorted(mut urls: Vec<String>) -> Vec<String> {
    urls.sort();
    urls
}

fn page_with_links(hrefs: &[&str]) -> String {
    let mut body = String::from("<html><head><title>t</title></head><body>");
    for href in hrefs {
        body.push_str(&format!("<p><a href=\"{}\">x</a></p>", href));
    }
    body.push_str("</body></html>");
    body
}

#[test]
fn boot_decision_table() {
    assert_eq!(decide_boot(false, false), BootAction::Create);
    assert_eq!(decide_boot(false, true), BootAction::Create);
    assert_eq!(decide_boot(true, true), BootAction::Resume);
    assert_eq!(decide_boot(true, false), BootAction::Reseed);
}

#[test]
fn new_engine_is_seeding_and_empty() {
    let engine = Engine::new();
    assert_eq!(engine.phase, Phase::Seeding);
    assert!(!engine.frontier.has_any_unprocessed());
}

#[test]
fn missing_store_is_created_and_seeded() {
    let (engine, action, writes) = Engine::bootstrap(None, SEED);
    assert_eq!(action, BootAction::Create);
    assert_eq!(engine.phase, Phase::Crawling);
    assert_eq!(engine.frontier.scan_unprocessed(), vec![SEED.to_string()]);
    assert_eq!(plain(&writes), vec![(SEED.to_string(), EntryState::Unprocessed)]);
}

#[test]
fn reseed_scenario() {
    let mut exhausted = Frontier::new();
    exhausted.put(&wiki("Chat"), EntryState::Processed);
    exhausted.put(&wiki("Chien"), EntryState::Processed);
    let (engine, action, writes) = Engine::bootstrap(Some(exhausted), SEED);
    assert_eq!(action, BootAction::Reseed);
    assert_eq!(engine.phase, Phase::Crawling);
    assert_eq!(engine.frontier.scan_unprocessed(), vec![SEED.to_string()]);
    assert_eq!(engine.frontier.state_of(SEED), Some(EntryState::Unprocessed));
    assert_eq!(engine.frontier.state_of(&wiki("Chat")), None);
    assert_eq!(engine.frontier.state_of(&wiki("Chien")), None);
    assert_eq!(plain(&writes), vec![(SEED.to_string(), EntryState::Unprocessed)]);
}

#[test]
fn empty_store_is_reseeded() {
    let (engine, action, _) = Engine::bootstrap(Some(Frontier::new()), SEED);
    assert_eq!(action, BootAction::Reseed);
    assert_eq!(engine.frontier.scan_unprocessed(), vec![SEED.to_string()]);
}

#[test]
fn resume_scenario() {
    let mut stored = Frontier::new();
    stored.put(&wiki("Chat"), EntryState::Unprocessed);
    stored.put(&wiki("Chien"), EntryState::Processed);
    let (mut engine, action, writes) = Engine::bootstrap(Some(stored), SEED);
    assert_eq!(action, BootAction::Resume);
    assert!(writes.is_empty());
    assert_eq!(engine.frontier.state_of(SEED), None);

    let batch = engine.begin_round();
    assert_eq!(batch, vec![wiki("Chat")]);
    assert_eq!(engine.phase, Phase::Crawling);

    let writes = engine.finish_unit(&batch[0], &FetchOutcome::Page(page_with_links(&[])));
    assert_eq!(plain(&writes), vec![(wiki("Chat"), EntryState::Processed)]);
    assert_eq!(engine.frontier.state_of(&wiki("Chat")), Some(EntryState::Processed));
    assert_eq!(engine.frontier.state_of(&wiki("Chien")), Some(EntryState::Processed));

    assert!(engine.begin_round().is_empty());
    assert_eq!(engine.phase, Phase::Drained);
}

#[test]
fn present_attribute_values_are_kept_in_order() {
    let values = vec![Some("a".to_string()), None, Some("b".to_string()), None, Some("a".to_string())];
    assert_eq!(links_among(&values), vec!["a".to_string(), "b".to_string(), "a".to_string()]);
    assert!(links_among(&Vec::new()).is_empty());
}

#[test]
fn anchors_give_their_hrefs_in_document_order() {
    let body = "<html><body><a href=\"/wiki/Chat\">c</a><a name=\"x\">no href</a>\
                <div><a href=\"#top\">t</a><link href=\"/style.css\"><img src=\"/wiki/I\"></div>\
                <a href='/wiki/Chat'>again</a><a href=\"\">empty</a></body></html>";
    assert_eq!(
        extract_links(body),
        vec!["/wiki/Chat".to_string(), "#top".to_string(), "/wiki/Chat".to_string(), String::new()]
    );
}

#[test]
fn text_without_anchors_has_no_links() {
    assert!(extract_links("").is_empty());
    assert!(extract_links("just text, href=\"/wiki/Chat\"").is_empty());
}

#[test]
fn canonical_links_are_filtered_and_deduplicated() {
    let hrefs: Vec<String> = [
        "/wiki/Chat",
        "#top",
        "/wiki/Aide:Accueil",
        "https://fr.wikipedia.org/wiki/Chien?action=raw",
        "/w/index.php?title=Chat&action=edit",
        "//fr.wikipedia.org/wiki/Chien#Histoire",
        "https://example.org/",
        "/wiki/Oiseau",
    ]
    .iter()
    .map(|s| s.to_string())
    .collect();
    assert_eq!(canonical_links_of(&hrefs), vec![wiki("Chat"), wiki("Chien"), wiki("Oiseau")]);
}

#[test]
fn links_of_a_failed_fetch_are_none() {
    assert!(links_of_outcome(&FetchOutcome::Failed).is_empty());
}

#[test]
fn links_of_a_page_are_its_canonical_links() {
    let body = page_with_links(&["/wiki/Chat", "/wiki/Chat", "/wiki/Cat%C3%A9gorie:Chats", "/wiki/Chien"]);
    assert_eq!(links_of_outcome(&FetchOutcome::Page(body)), vec![wiki("Chat"), wiki("Chien")]);
}

#[test]
fn completed_unit_records_new_links_then_the_page() {
    let (mut engine, _, _) = Engine::bootstrap(None, SEED);
    engine.frontier.put(&wiki("Chien"), EntryState::Processed);
    let links = vec![wiki("Chat"), wiki("Chien"), wiki("Oiseau"), SEED.to_string()];
    let writes = engine.complete_unit(SEED, &links);
    assert_eq!(
        plain(&writes),
        vec![
            (wiki("Chat"), EntryState::Unprocessed),
            (wiki("Oiseau"), EntryState::Unprocessed),
            (SEED.to_string(), EntryState::Processed),
        ]
    );
    assert_eq!(engine.frontier.state_of(SEED), Some(EntryState::Processed));
    assert_eq!(engine.frontier.state_of(&wiki("Chien")), Some(EntryState::Processed));
    assert_eq!(sorted(engine.frontier.scan_unprocessed()), vec![wiki("Chat"), wiki("Oiseau")]);
    assert_eq!(engine.phase, Phase::Crawling);
}

#[test]
fn writes_replayed_on_a_copy_give_the_same_frontier() {
    let (mut engine, _, boot_writes) = Engine::bootstrap(None, SEED);
    let mut copy = Frontier::new();
    for w in &boot_writes {
        copy.put(&w.url, w.state);
    }
    let body = page_with_links(&["/wiki/Chat", "/wiki/Chien", "/wiki/Science"]);
    for w in engine.finish_unit(SEED, &FetchOutcome::Page(body)) {
        copy.put(&w.url, w.state);
    }
    for w in engine.finish_unit(&wiki("Chat"), &FetchOutcome::Failed) {
        copy.put(&w.url, w.state);
    }
    for url in [SEED.to_string(), wiki("Chat"), wiki("Chien"), wiki("Oiseau")] {
        assert_eq!(copy.state_of(&url), engine.frontier.state_of(&url));
    }
    assert_eq!(sorted(copy.scan_unprocessed()), sorted(engine.frontier.scan_unprocessed()));
}

#[test]
fn failed_fetch_still_marks_the_page_processed() {
    let (mut engine, _, _) = Engine::bootstrap(None, SEED);
    let writes = engine.finish_unit(SEED, &FetchOutcome::Failed);
    assert_eq!(plain(&writes), vec![(SEED.to_string(), EntryState::Processed)]);
    assert_eq!(engine.frontier.state_of(SEED), Some(EntryState::Processed));
    assert!(engine.begin_round().is_empty());
    assert_eq!(engine.phase, Phase::Drained);
}

#[test]
fn begin_round_does_not_change_the_frontier() {
    let (mut engine, _, _) = Engine::bootstrap(None, SEED);
    let first = engine.begin_round();
    let second = engine.begin_round();
    assert_eq!(first, vec![SEED.to_string()]);
    assert_eq!(first, second);
    assert_eq!(engine.phase, Phase::Crawling);
}

#[test]
fn round_on_an_engine_that_was_never_seeded_is_drained() {
    let mut engine = Engine::new();
    assert!(engine.begin_round().is_empty());
    assert_eq!(engine.phase, Phase::Drained);
}

fn site_page(url: &str) -> FetchOutcome {
    let science = wiki("Science");
    let chat = wiki("Chat");
    let chien = wiki("Chien");
    let oiseau = wiki("Oiseau");
    if url == science {
        FetchOutcome::Page(page_with_links(&["/wiki/Chat", "/wiki/Chien", "/wiki/Science", "#top"]))
    } else if url == chat {
        FetchOutcome::Page(page_with_links(&["/wiki/Chien", "/wiki/Oiseau", "/wiki/Aide:Chat"]))
    } else if url == chien {
        FetchOutcome::Page(page_with_links(&["/wiki/Science", "https://example.org/"]))
    } else if url == oiseau {
        FetchOutcome::Failed
    } else {
        FetchOutcome::Failed
    }
}

#[test]
fn crawl_of_a_finite_site_drains() {
    let (mut engine, _, _) = Engine::bootstrap(None, SEED);
    let mut rounds = 0;
    let mut units = 0;
    loop {
        let batch = engine.begin_round();
        if batch.is_empty() {
            break;
        }
        rounds += 1;
        assert!(rounds <= 4, "more rounds than pages");
        for url in batch.iter().rev() {
            engine.finish_unit(url, &site_page(url));
            units += 1;
        }
    }
    assert_eq!(engine.phase, Phase::Drained);
    assert_eq!(units, 4);
    assert_eq!(rounds, 3);
    for title in ["Science", "Chat", "Chien", "Oiseau"] {
        assert_eq!(engine.frontier.state_of(&wiki(title)), Some(EntryState::Processed));
    }
    assert_eq!(engine.frontier.state_of(&wiki("Aide:Chat")), None);
}

#[test]
fn units_of_a_round_can_complete_in_any_order() {
    let run = |reverse: bool| {
        let (mut engine, _, _) = Engine::bootstrap(None, SEED);
        loop {
            let mut batch = engine.begin_round();
            if batch.is_empty() {
                break;
            }
            if reverse {
                batch.reverse();
            }
            for url in &batch {
                engine.finish_unit(url, &site_page(url));
            }
        }
        ["Science", "Chat", "Chien", "Oiseau", "Autre"]
            .iter()
            .map(|t| engine.frontier.state_of(&wiki(t)))
            .collect::<Vec<_>>()
    };
    assert_eq!(run(false), run(true));
}

#[test]
fn archive_file_is_named_after_the_last_segment() {
    assert_eq!(page_file_name("wiki", "https://fr.wikipedia.org/wiki/Science"), "wiki/Science.html");
    assert_eq!(page_file_name("wiki", "https://fr.wikipedia.org/wiki/A/B"), "wiki/B.html");
    assert_eq!(page_file_name("out", "Science"), "out/Science.html");
    assert_eq!(page_file_name("wiki", "https://fr.wikipedia.org/wiki/"), "wiki/.html");
}

#[test]
fn settings_of_the_french_wikipedia_crawl() {
    let config = Config::french_wikipedia();
    assert_eq!(config.seed_url, SEED);
    assert_eq!(config.store_path, "rocksdb_urls");
    assert_eq!(config.archive_dir, "wiki");
    assert_eq!(config.max_in_flight, 32);
    assert_eq!(clean_url(&config.seed_url), Some(config.seed_url.clone()));
}

#[test]
fn two_units_leave_the_same_frontier_in_either_order() {
    let states = |first: bool| {
        let (mut engine, _, _) = Engine::bootstrap(None, SEED);
        engine.frontier.insert_if_absent(&wiki("Chat"));
        let a = (SEED.to_string(), vec![wiki("Chat"), wiki("Chien")]);
        let b = (wiki("Chat"), vec![SEED.to_string(), wiki("Oiseau"), wiki("Chien")]);
        let order = if first { [a, b] } else { [b, a] };
        for (url, links) in &order {
            engine.complete_unit(url, links);
        }
        ["Science", "Chat", "Chien", "Oiseau", "Autre"]
            .iter()
            .map(|t| engine.frontier.state_of(&wiki(t)))
            .collect::<Vec<_>>()
    };
    assert_eq!(states(true), states(false));
    assert_eq!(
        states(true),
        vec![
            Some(EntryState::Processed),
            Some(EntryState::Processed),
            Some(EntryState::Unprocessed),
            Some(EntryState::Unprocessed),
            None,
        ]
    );
}

#[test]
fn a_link_given_twice_is_written_once() {
    let (mut engine, _, _) = Engine::bootstrap(None, SEED);
    let links = vec![wiki("Chat"), wiki("Chat"), wiki("Chien"), wiki("Chat")];
    let writes = engine.complete_unit(SEED, &links);
    assert_eq!(
        plain(&writes),
        vec![
            (wiki("Chat"), EntryState::Unprocessed),
            (wiki("Chien"), EntryState::Unprocessed),
            (SEED.to_string(), EntryState::Processed),
        ]
    );
}

#[test]
fn a_known_page_is_never_written_again() {
    let (mut engine, _, _) = Engine::bootstrap(None, SEED);
    engine.frontier.put(&wiki("Chat"), EntryState::Processed);
    engine.frontier.put(&wiki("Chien"), EntryState::Unprocessed);
    let writes = engine.complete_unit(SEED, &vec![wiki("Chat"), wiki("Chien")]);
    assert_eq!(plain(&writes), vec![(SEED.to_string(), EntryState::Processed)]);
    let writes = engine.complete_unit(&wiki("Chien"), &vec![SEED.to_string()]);
    assert_eq!(plain(&writes), vec![(wiki("Chien"), EntryState::Processed)]);
}

#[test]
fn body_limit_is_a_third_of_what_the_parser_holds() {
    assert_eq!(MAX_BODY_BYTES, 715_827_882);
    assert!(3 * (MAX_BODY_BYTES as u64) <= 0x8000_0000);
    assert!(3 * (MAX_BODY_BYTES as u64 + 1) > 0x8000_0000);
}

#[test]
fn long_text_and_nul_bytes_are_read() {
    let mut body = String::from("<p>");
    for _ in 0..200_000 {
        body.push_str("abcdefghij\n");
    }
    body.push_str("<a href=\"/wiki/Chat\">c</a><plaintext>");
    for _ in 0..100_000 {
        body.push('\0');
    }
    assert_eq!(extract_links(&body), vec!["/wiki/Chat".to_string()]);
}
