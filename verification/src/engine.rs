//! The crawl engine: what to do at start-up, which pages a round fetches,
//! and what a fetched page changes in the frontier. The fetching itself is
//! the caller's; the engine decides and records.

use crate::bindings::{select_attribute, selected_attributes};
use crate::canonical::{
    apostrophe_escape, canonical, clean_url, is_canonical_shape, wiki_prefix,
};
use crate::stable::{has_only_apostrophe_escapes, lemma_settled_title_is_kept};
use crate::text::occurs_at;
use crate::frontier::{completed, discovered, has_pending, pending, EntryState, Frontier};
use crate::text::{after_last, chars_of, join, last_segment, string_of};
use vstd::prelude::*;
use vstd::string::StringSliceAdditionalSpecFns;
use vstd::utf8::encode_utf8;

verus! {

/// What start-up does with the store.
#[derive(Clone, Copy, Debug, PartialEq, Eq, Structural)]
pub enum BootAction {
    /// No store yet: create one and seed it.
    Create,
    /// A store with pages waiting: go on with it.
    Resume,
    /// A store with nothing waiting: destroy it, create one and seed it.
    Reseed,
}

/// Where a run stands.
#[derive(Clone, Copy, Debug, PartialEq, Eq, Structural)]
pub enum Phase {
    /// Before start-up.
    Seeding,
    /// Rounds are being run.
    Crawling,
    /// A scan found nothing waiting: the run is over.
    Drained,
}

/// One record to write to the durable store.
pub struct StoreWrite {
    pub url: String,
    pub state: EntryState,
}

/// How the fetch of one page ended.
pub enum FetchOutcome {
    /// The body of the page.
    Page(String),
    /// The page could not be fetched.
    Failed,
}

/// The settings of a crawl.
pub struct Config {
    /// The page that a fresh crawl starts from.
    pub seed_url: String,
    /// Where the durable store lives.
    pub store_path: String,
    /// The directory that fetched pages are written to.
    pub archive_dir: String,
    /// How many fetches may be under way at once; at least one.
    pub max_in_flight: usize,
}

impl Config {
    /// The settings of a crawl of the French Wikipedia, from its page on
    /// science. The seed is a canonical URL.
    pub fn french_wikipedia() -> (config: Config)
        ensures
            config.seed_url@ == "https://fr.wikipedia.org/wiki/Science"@,
            is_canonical_shape(config.seed_url@),
            config.store_path@ == "rocksdb_urls"@,
            config.archive_dir@ == "wiki"@,
            config.max_in_flight == 32,
    {
        proof {
            reveal_strlit("https://fr.wikipedia.org/wiki/Science");
            reveal_strlit("https://fr.wikipedia.org/wiki/");
            reveal_strlit("Science");
            reveal_strlit("%27");
            let seed = "https://fr.wikipedia.org/wiki/Science"@;
            let title = "Science"@;
            assert(seed.subrange(0, 30) =~= wiki_prefix());
            assert(seed.skip(30) =~= title);
            assert(has_only_apostrophe_escapes(title)) by {
                reveal_with_fuel(has_only_apostrophe_escapes, 8);
                assert forall|k: int| 0 <= k < 7 implies !occurs_at(
                    #[trigger] title.skip(k),
                    apostrophe_escape(),
                    0,
                ) by {
                    if occurs_at(title.skip(k), apostrophe_escape(), 0) {
                        assert(title.skip(k).subrange(0, 3)[0] == '%');
                    }
                }
            }
            lemma_settled_title_is_kept(title);
        }
        Config {
            seed_url: "https://fr.wikipedia.org/wiki/Science".to_owned(),
            store_path: "rocksdb_urls".to_owned(),
            archive_dir: "wiki".to_owned(),
            max_in_flight: 32,
        }
    }
}

/// The file that the page of `url` is archived in: in `dir`, named after
/// what follows the last `/` of the URL.
pub open spec fn archive_name(dir: Seq<char>, url: Seq<char>) -> Seq<char> {
    dir + "/"@ + last_segment(url, '/') + ".html"@
}

/// The file that the page of `url` is archived in.
pub fn page_file_name(dir: &str, url: &str) -> (name: String)
    ensures
        name@ == archive_name(dir@, url@),
{
    let title = after_last(&chars_of(url), '/');
    let stem = join(&join(&chars_of(dir), &chars_of("/")), &title);
    string_of(&join(&stem, &chars_of(".html")))
}

/// The start-up decision.
pub open spec fn boot_action(store_exists: bool, any_unprocessed: bool) -> BootAction {
    if !store_exists {
        BootAction::Create
    } else if any_unprocessed {
        BootAction::Resume
    } else {
        BootAction::Reseed
    }
}

/// The values that are there, in order.
pub open spec fn present(values: Seq<Option<Seq<char>>>) -> Seq<Seq<char>>
    decreases values.len(),
{
    if values.len() == 0 {
        Seq::empty()
    } else {
        match values.last() {
            Some(v) => present(values.drop_last()).push(v),
            None => present(values.drop_last()),
        }
    }
}

/// The longest body, in bytes of UTF-8, that is read for links: a third
/// of 2^31, the most that the HTML parser can hold of one text.
pub const MAX_BODY_BYTES: usize = 0x2AAA_AAAA;

/// The hyperlinks of a page: the `href` of every anchor that has one. A
/// body of more than `MAX_BODY_BYTES` bytes is not read and gives none.
pub open spec fn extracted_links(body: Seq<char>) -> Seq<Seq<char>> {
    if encode_utf8(body).len() > MAX_BODY_BYTES {
        Seq::empty()
    } else {
        match selected_attributes(body, "a"@, "href"@) {
            Some(values) => present(values),
            None => Seq::empty(),
        }
    }
}

/// The canonical URLs among `hrefs`, each once, in the order in which they
/// first occur.
pub open spec fn canonical_links(hrefs: Seq<Seq<char>>) -> Seq<Seq<char>>
    decreases hrefs.len(),
{
    if hrefs.len() == 0 {
        Seq::empty()
    } else {
        let before = canonical_links(hrefs.drop_last());
        match canonical(hrefs.last()) {
            Some(url) => if before.contains(url) {
                before
            } else {
                before.push(url)
            },
            None => before,
        }
    }
}

/// The links that the outcome of a fetch yields: those of the page, or none.
pub open spec fn outcome_links(outcome: FetchOutcome) -> Seq<Seq<char>> {
    match outcome {
        FetchOutcome::Page(body) => canonical_links(extracted_links(body@)),
        FetchOutcome::Failed => Seq::empty(),
    }
}

/// `m` after every one of `links` has been discovered.
pub open spec fn discovered_all(m: Map<Seq<char>, EntryState>, links: Seq<Seq<char>>) -> Map<
    Seq<char>,
    EntryState,
>
    decreases links.len(),
{
    if links.len() == 0 {
        m
    } else {
        discovered(discovered_all(m, links.drop_last()), links.last())
    }
}

/// The records that discovering `links` writes, in order: one for each link
/// that is new when its turn comes.
pub open spec fn link_writes(m: Map<Seq<char>, EntryState>, links: Seq<Seq<char>>) -> Seq<
    (Seq<char>, EntryState),
>
    decreases links.len(),
{
    if links.len() == 0 {
        Seq::empty()
    } else if discovered_all(m, links.drop_last()).contains_key(links.last()) {
        link_writes(m, links.drop_last())
    } else {
        link_writes(m, links.drop_last()).push((links.last(), EntryState::Unprocessed))
    }
}

/// The records that the unit of `url` writes, in order: each link that is
/// new as waiting, then `url` as processed. A known page is written only
/// where it is `url` itself.
pub open spec fn unit_writes(
    m: Map<Seq<char>, EntryState>,
    url: Seq<char>,
    links: Seq<Seq<char>>,
) -> Seq<(Seq<char>, EntryState)> {
    link_writes(m, links).push((url, EntryState::Processed))
}

/// `m` after the unit of `url` has completed with `links`: the links are
/// discovered, then `url` is processed.
pub open spec fn unit_result(
    m: Map<Seq<char>, EntryState>,
    url: Seq<char>,
    links: Seq<Seq<char>>,
) -> Map<Seq<char>, EntryState> {
    completed(discovered_all(m, links), url)
}

/// Store writes as plain values.
pub open spec fn writes_view(writes: Seq<StoreWrite>) -> Seq<(Seq<char>, EntryState)> {
    writes.map_values(|w: StoreWrite| (w.url@, w.state))
}

/// `m` after `writes` have been written, in order.
pub open spec fn applied(m: Map<Seq<char>, EntryState>, writes: Seq<(Seq<char>, EntryState)>) -> Map<
    Seq<char>,
    EntryState,
>
    decreases writes.len(),
{
    if writes.len() == 0 {
        m
    } else {
        applied(m, writes.drop_last()).insert(writes.last().0, writes.last().1)
    }
}

/// The start-up decision: a missing store is created, a store with pages
/// waiting is resumed, an exhausted store is seeded anew.
pub fn decide_boot(store_exists: bool, any_unprocessed: bool) -> (action: BootAction)
    ensures
        action == boot_action(store_exists, any_unprocessed),
{
    if !store_exists {
        BootAction::Create
    } else if any_unprocessed {
        BootAction::Resume
    } else {
        BootAction::Reseed
    }
}

/// The attribute values that are there, in order.
pub fn links_among(values: &Vec<Option<String>>) -> (links: Vec<String>)
    ensures
        links.deep_view() == present(values.deep_view()),
{
    let ghost all = values.deep_view();
    let mut links: Vec<String> = Vec::new();
    let mut i: usize = 0;
    while i < values.len()
        invariant
            i <= values@.len(),
            all == values.deep_view(),
            links.deep_view() == present(all.take(i as int)),
        decreases values@.len() - i,
    {
        proof {
            assert(all.take(i + 1).drop_last() =~= all.take(i as int));
        }
        match &values[i] {
            Some(v) => {
                links.push(v.clone());
            },
            None => {},
        }
        i += 1;
    }
    proof {
        assert(all.take(i as int) =~= all);
    }
    links
}

/// The hyperlinks of the HTML page `body`; none where the body is longer
/// than `MAX_BODY_BYTES`.
pub fn extract_links(body: &str) -> (links: Vec<String>)
    ensures
        links.deep_view() == extracted_links(body@),
{
    if body.as_bytes().len() > MAX_BODY_BYTES {
        return Vec::new();
    }
    match select_attribute(body, "a", "href") {
        Some(values) => links_among(&values),
        None => Vec::new(),
    }
}

/// Whether `key` is one of `list`.
pub fn holds(list: &Vec<String>, key: &String) -> (r: bool)
    ensures
        r == list.deep_view().contains(key@),
{
    let mut i: usize = 0;
    while i < list.len()
        invariant
            i <= list@.len(),
            forall|j: int| 0 <= j < i ==> list.deep_view()[j] != key@,
        decreases list@.len() - i,
    {
        if list[i] == *key {
            proof {
                assert(list.deep_view()[i as int] == key@);
            }
            return true;
        }
        i += 1;
    }
    false
}

/// The canonical URLs among `hrefs`, each once, in the order in which they
/// first occur; links that the canonicaliser rejects are left out.
pub fn canonical_links_of(hrefs: &Vec<String>) -> (links: Vec<String>)
    ensures
        links.deep_view() == canonical_links(hrefs.deep_view()),
{
    let ghost all = hrefs.deep_view();
    let mut links: Vec<String> = Vec::new();
    let mut i: usize = 0;
    while i < hrefs.len()
        invariant
            i <= hrefs@.len(),
            all == hrefs.deep_view(),
            links.deep_view() == canonical_links(all.take(i as int)),
        decreases hrefs@.len() - i,
    {
        proof {
            assert(all.take(i + 1).drop_last() =~= all.take(i as int));
        }
        match clean_url(hrefs[i].as_str()) {
            Some(url) => {
                if !holds(&links, &url) {
                    links.push(url);
                }
            },
            None => {},
        }
        i += 1;
    }
    proof {
        assert(all.take(i as int) =~= all);
    }
    links
}

/// The canonical links that the outcome of a fetch yields. A failed fetch
/// yields none.
pub fn links_of_outcome(outcome: &FetchOutcome) -> (links: Vec<String>)
    ensures
        links.deep_view() == outcome_links(*outcome),
{
    match outcome {
        FetchOutcome::Page(body) => canonical_links_of(&extract_links(body.as_str())),
        FetchOutcome::Failed => {
            let links: Vec<String> = Vec::new();
            links
        },
    }
}

/// A crawl: the frontier and the phase of the run.
pub struct Engine {
    pub frontier: Frontier,
    pub phase: Phase,
}

impl Engine {
    /// An engine before start-up: nothing discovered.
    pub fn new() -> (engine: Engine)
        ensures
            engine.phase == Phase::Seeding,
            engine.frontier@ == Map::<Seq<char>, EntryState>::empty(),
    {
        Engine { frontier: Frontier::new(), phase: Phase::Seeding }
    }

    /// Start-up. `existing` is the frontier read from the store, `None`
    /// where there is no store. A missing or exhausted store gives way to a
    /// frontier that holds the seed alone, waiting; a store with pages
    /// waiting is taken as it is. Returns the decision and what it writes.
    pub fn bootstrap(existing: Option<Frontier>, seed: &str) -> (r: (Engine, BootAction, Vec<StoreWrite>))
        ensures
            r.0.phase == Phase::Crawling,
            r.1 == boot_action(existing is Some, existing is Some && has_pending(existing->0@)),
            r.1 == BootAction::Resume ==> r.0.frontier@ == existing->0@ && r.2@.len() == 0,
            r.1 != BootAction::Resume ==> r.0.frontier@ == Map::<Seq<char>, EntryState>::empty().insert(
                seed@,
                EntryState::Unprocessed,
            ) && writes_view(r.2@) == seq![(seed@, EntryState::Unprocessed)],
    {
        let (store_exists, any_unprocessed) = match &existing {
            Some(frontier) => (true, frontier.has_any_unprocessed()),
            None => (false, false),
        };
        let action = decide_boot(store_exists, any_unprocessed);
        match (action, existing) {
            (BootAction::Resume, Some(frontier)) => {
                (Engine { frontier, phase: Phase::Crawling }, action, Vec::new())
            },
            _ => {
                let mut frontier = Frontier::new();
                frontier.put(seed, EntryState::Unprocessed);
                let mut writes: Vec<StoreWrite> = Vec::new();
                writes.push(StoreWrite { url: seed.to_owned(), state: EntryState::Unprocessed });
                (Engine { frontier, phase: Phase::Crawling }, action, writes)
            },
        }
    }

    /// Takes the scan that opens a round: every URL that waits, each once.
    /// Where none waits the run is drained; the frontier is not changed.
    pub fn begin_round(&mut self) -> (batch: Vec<String>)
        ensures
            final(self).frontier@ == old(self).frontier@,
            batch.deep_view().no_duplicates(),
            forall|key: Seq<char>|
                batch.deep_view().contains(key) <==> pending(old(self).frontier@).contains(key),
            final(self).phase == if has_pending(old(self).frontier@) {
                Phase::Crawling
            } else {
                Phase::Drained
            },
    {
        let batch = self.frontier.scan_unprocessed();
        if batch.len() == 0 {
            self.phase = Phase::Drained;
            proof {
                assert forall|key: Seq<char>| !pending(self.frontier@).contains(key) by {
                    if pending(self.frontier@).contains(key) {
                        assert(batch.deep_view().contains(key));
                    }
                }
            }
        } else {
            self.phase = Phase::Crawling;
            proof {
                assert(batch.deep_view().contains(batch.deep_view()[0]));
            }
        }
        batch
    }

    /// Completes the unit of `url`: each of `links` is recorded as waiting
    /// unless it is known, then `url` is recorded as processed. Returns the
    /// records to write: each link that was new, in order, then `url`.
    pub fn complete_unit(&mut self, url: &str, links: &Vec<String>) -> (writes: Vec<StoreWrite>)
        ensures
            final(self).frontier@ == unit_result(old(self).frontier@, url@, links.deep_view()),
            writes_view(writes@) == unit_writes(old(self).frontier@, url@, links.deep_view()),
            final(self).frontier@ == applied(old(self).frontier@, writes_view(writes@)),
            final(self).phase == old(self).phase,
    {
        let ghost start = self.frontier@;
        let ghost all = links.deep_view();
        let mut writes: Vec<StoreWrite> = Vec::new();
        let mut i: usize = 0;
        while i < links.len()
            invariant
                i <= links@.len(),
                all == links.deep_view(),
                self.phase == old(self).phase,
                self.frontier@ == discovered_all(start, all.take(i as int)),
                self.frontier@ == applied(start, writes_view(writes@)),
                writes_view(writes@) == link_writes(start, all.take(i as int)),
            decreases links@.len() - i,
        {
            let ghost before = writes_view(writes@);
            proof {
                assert(all.take(i + 1).drop_last() =~= all.take(i as int));
            }
            if self.frontier.insert_if_absent(links[i].as_str()) {
                writes.push(StoreWrite { url: links[i].clone(), state: EntryState::Unprocessed });
                proof {
                    let after = writes_view(writes@);
                    assert(after.drop_last() =~= before);
                    assert(after =~= before.push((all[i as int], EntryState::Unprocessed)));
                }
            }
            i += 1;
        }
        proof {
            assert(all.take(i as int) =~= all);
        }
        let ghost before = writes_view(writes@);
        self.frontier.mark_processed(url);
        writes.push(StoreWrite { url: url.to_owned(), state: EntryState::Processed });
        proof {
            let after = writes_view(writes@);
            assert(after.drop_last() =~= before);
            assert(after =~= before.push((url@, EntryState::Processed)));
        }
        writes
    }

    /// Completes the unit of `url` from the outcome of its fetch. A failed
    /// fetch discovers nothing; the URL is recorded as processed all the
    /// same, so that it is not tried again in this run.
    pub fn finish_unit(&mut self, url: &str, outcome: &FetchOutcome) -> (writes: Vec<StoreWrite>)
        ensures
            final(self).frontier@ == unit_result(old(self).frontier@, url@, outcome_links(*outcome)),
            writes_view(writes@) == unit_writes(old(self).frontier@, url@, outcome_links(*outcome)),
            final(self).frontier@ == applied(old(self).frontier@, writes_view(writes@)),
            final(self).phase == old(self).phase,
    {
        let links = links_of_outcome(outcome);
        self.complete_unit(url, &links)
    }
}

} // verus!
