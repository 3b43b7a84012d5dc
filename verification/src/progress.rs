//! Why a crawl ends. A processed page stays processed, every round that
//! finds a page waiting processes at least one more, and a finite site has
//! only so many pages: so the rounds that find anything waiting are no more
//! than the pages still to be processed.

use crate::engine::{discovered_all, unit_result};
use crate::frontier::{pending, processed, EntryState};
use vstd::prelude::*;
use vstd::set_lib::lemma_len_subset;

verus! {

/// The canonical links of the page `url` on `site`. A page that `site` does
/// not hold, as one whose fetch fails, links to nothing.
pub open spec fn links_of(site: Map<Seq<char>, Seq<Seq<char>>>, url: Seq<char>) -> Seq<Seq<char>> {
    if site.contains_key(url) {
        site[url]
    } else {
        Seq::empty()
    }
}

/// Every link of a page among `pages` leads to a page among `pages`.
pub open spec fn closed_under(pages: Set<Seq<char>>, site: Map<Seq<char>, Seq<Seq<char>>>) -> bool {
    forall|url: Seq<char>, i: int|
        pages.contains(url) && 0 <= i < links_of(site, url).len() ==> pages.contains(
            #[trigger] links_of(site, url)[i],
        )
}

/// `m` after the units of `units` have completed, one after the other.
pub open spec fn after_units(
    m: Map<Seq<char>, EntryState>,
    site: Map<Seq<char>, Seq<Seq<char>>>,
    units: Seq<Seq<char>>,
) -> Map<Seq<char>, EntryState>
    decreases units.len(),
{
    if units.len() == 0 {
        m
    } else {
        unit_result(
            after_units(m, site, units.drop_last()),
            units.last(),
            links_of(site, units.last()),
        )
    }
}

/// `batch` can be the work of a round that starts from `m`: it is not empty
/// and each of its pages waits in `m`. The order is free, and so is whether
/// every waiting page is in it.
pub open spec fn is_round(m: Map<Seq<char>, EntryState>, batch: Seq<Seq<char>>) -> bool {
    &&& batch.len() > 0
    &&& forall|i: int| 0 <= i < batch.len() ==> pending(m).contains(#[trigger] batch[i])
}

/// `m` after the rounds of `rounds`, one after the other.
pub open spec fn after_rounds(
    m: Map<Seq<char>, EntryState>,
    site: Map<Seq<char>, Seq<Seq<char>>>,
    rounds: Seq<Seq<Seq<char>>>,
) -> Map<Seq<char>, EntryState>
    decreases rounds.len(),
{
    if rounds.len() == 0 {
        m
    } else {
        after_units(after_rounds(m, site, rounds.drop_last()), site, rounds.last())
    }
}

/// Each of `rounds` can be the work of a round that starts where the rounds
/// before it ended.
pub open spec fn valid_rounds(
    m: Map<Seq<char>, EntryState>,
    site: Map<Seq<char>, Seq<Seq<char>>>,
    rounds: Seq<Seq<Seq<char>>>,
) -> bool {
    forall|k: int|
        0 <= k < rounds.len() ==> is_round(after_rounds(m, site, rounds.take(k)), #[trigger] rounds[k])
}

/// The pages among `pages` that `m` has not processed.
pub open spec fn remaining(pages: Set<Seq<char>>, m: Map<Seq<char>, EntryState>) -> Set<Seq<char>> {
    pages.difference(processed(m))
}

/// Discovering links adds them where they are new and changes nothing else.
pub proof fn lemma_discovery(m: Map<Seq<char>, EntryState>, links: Seq<Seq<char>>)
    ensures
        forall|key: Seq<char>| #[trigger]
            m.contains_key(key) ==> discovered_all(m, links).contains_key(key) && discovered_all(
                m,
                links,
            )[key] == m[key],
        forall|key: Seq<char>| #[trigger]
            discovered_all(m, links).contains_key(key) ==> m.contains_key(key) || links.contains(
                key,
            ),
        forall|i: int|
            0 <= i < links.len() ==> discovered_all(m, links).contains_key(#[trigger] links[i]),
    decreases links.len(),
{
    if links.len() > 0 {
        let before = links.drop_last();
        lemma_discovery(m, before);
        let r = discovered_all(m, links);
        let mid = discovered_all(m, before);
        assert forall|key: Seq<char>| #[trigger] m.contains_key(key) implies r.contains_key(key)
            && r[key] == m[key] by {
            assert(mid.contains_key(key) && mid[key] == m[key]);
        }
        assert forall|key: Seq<char>| #[trigger] r.contains_key(key) implies m.contains_key(key)
            || links.contains(key) by {
            if key == links.last() {
                assert(links[links.len() - 1] == key);
            } else if !m.contains_key(key) {
                let i = choose|i: int| 0 <= i < before.len() && before[i] == key;
                assert(links[i] == key);
            }
        }
        assert forall|i: int| 0 <= i < links.len() implies r.contains_key(#[trigger] links[i]) by {
            if i < links.len() - 1 {
                assert(before[i] == links[i]);
            }
        }
    }
}

/// A completed unit leaves its page processed, adds its links where they
/// are new, and changes no other page.
pub proof fn lemma_unit(m: Map<Seq<char>, EntryState>, url: Seq<char>, links: Seq<Seq<char>>)
    ensures
        processed(unit_result(m, url, links)).contains(url),
        forall|key: Seq<char>| #[trigger]
            m.contains_key(key) && key != url ==> unit_result(m, url, links).contains_key(key)
                && unit_result(m, url, links)[key] == m[key],
        forall|key: Seq<char>| #[trigger]
            unit_result(m, url, links).contains_key(key) ==> m.contains_key(key) || links.contains(
                key,
            ) || key == url,
{
    lemma_discovery(m, links);
}

/// The frontier that a completed unit leaves, written out key by key.
pub open spec fn unit_outcome(
    m: Map<Seq<char>, EntryState>,
    url: Seq<char>,
    links: Seq<Seq<char>>,
) -> Map<Seq<char>, EntryState> {
    Map::new(
        |key: Seq<char>| m.contains_key(key) || links.contains(key) || key == url,
        |key: Seq<char>|
            if key == url {
                EntryState::Processed
            } else if m.contains_key(key) {
                m[key]
            } else {
                EntryState::Unprocessed
            },
    )
}

/// A completed unit leaves exactly `unit_outcome`.
pub proof fn lemma_unit_outcome(m: Map<Seq<char>, EntryState>, url: Seq<char>, links: Seq<Seq<char>>)
    ensures
        unit_result(m, url, links) == unit_outcome(m, url, links),
{
    lemma_discovery(m, links);
    let found = discovered_all(m, links);
    let r = unit_result(m, url, links);
    let expected = unit_outcome(m, url, links);
    assert forall|key: Seq<char>| r.contains_key(key) <==> expected.contains_key(key) by {
        if links.contains(key) {
            let i = choose|i: int| 0 <= i < links.len() && links[i] == key;
            assert(found.contains_key(links[i]));
        }
        if r.contains_key(key) && key != url {
            assert(found.contains_key(key));
        }
    }
    assert forall|key: Seq<char>| r.contains_key(key) implies r[key] == expected[key] by {
        if key != url {
            assert(found.contains_key(key));
            if !m.contains_key(key) {
                lemma_new_links_wait(m, links, key);
            }
        }
    }
    assert(r =~= expected);
}

/// A link that discovery adds waits.
pub proof fn lemma_new_links_wait(
    m: Map<Seq<char>, EntryState>,
    links: Seq<Seq<char>>,
    key: Seq<char>,
)
    requires
        !m.contains_key(key),
        discovered_all(m, links).contains_key(key),
    ensures
        discovered_all(m, links)[key] == EntryState::Unprocessed,
    decreases links.len(),
{
    if links.len() > 0 {
        let before = links.drop_last();
        if discovered_all(m, before).contains_key(key) {
            lemma_new_links_wait(m, before, key);
        }
    }
}

/// Units of a round may complete in either order: the frontier they leave
/// is the same.
pub proof fn lemma_units_commute(
    m: Map<Seq<char>, EntryState>,
    first: Seq<char>,
    first_links: Seq<Seq<char>>,
    second: Seq<char>,
    second_links: Seq<Seq<char>>,
)
    ensures
        unit_result(unit_result(m, first, first_links), second, second_links) == unit_result(
            unit_result(m, second, second_links),
            first,
            first_links,
        ),
{
    lemma_unit_outcome(m, first, first_links);
    lemma_unit_outcome(m, second, second_links);
    lemma_unit_outcome(unit_outcome(m, first, first_links), second, second_links);
    lemma_unit_outcome(unit_outcome(m, second, second_links), first, first_links);
    assert(unit_outcome(unit_outcome(m, first, first_links), second, second_links)
        =~= unit_outcome(unit_outcome(m, second, second_links), first, first_links));
}

/// Once a page is processed, no unit makes it wait again.
pub proof fn lemma_processed_is_final(
    m: Map<Seq<char>, EntryState>,
    url: Seq<char>,
    links: Seq<Seq<char>>,
    key: Seq<char>,
)
    requires
        processed(m).contains(key),
    ensures
        processed(unit_result(m, url, links)).contains(key),
{
    lemma_unit(m, url, links);
}

/// Units stay on the site, keep what is processed, and leave their own
/// pages processed.
pub proof fn lemma_units(
    m: Map<Seq<char>, EntryState>,
    site: Map<Seq<char>, Seq<Seq<char>>>,
    units: Seq<Seq<char>>,
    pages: Set<Seq<char>>,
)
    requires
        m.dom().subset_of(pages),
        closed_under(pages, site),
        forall|i: int| 0 <= i < units.len() ==> pages.contains(#[trigger] units[i]),
    ensures
        after_units(m, site, units).dom().subset_of(pages),
        processed(m).subset_of(processed(after_units(m, site, units))),
        forall|i: int|
            0 <= i < units.len() ==> processed(after_units(m, site, units)).contains(
                #[trigger] units[i],
            ),
    decreases units.len(),
{
    if units.len() > 0 {
        let before = units.drop_last();
        let url = units.last();
        let links = links_of(site, url);
        assert forall|i: int| 0 <= i < before.len() implies pages.contains(#[trigger] before[i]) by {
            assert(before[i] == units[i]);
        }
        lemma_units(m, site, before, pages);
        let mid = after_units(m, site, before);
        let r = after_units(m, site, units);
        lemma_unit(mid, url, links);
        assert forall|key: Seq<char>| r.dom().contains(key) implies pages.contains(key) by {
            if mid.contains_key(key) {
                assert(mid.dom().contains(key));
            } else if links.contains(key) {
                let i = choose|i: int| 0 <= i < links.len() && links[i] == key;
                assert(pages.contains(links_of(site, url)[i]));
            }
        }
        assert forall|key: Seq<char>| processed(m).contains(key) implies processed(r).contains(
            key,
        ) by {
            assert(processed(mid).contains(key));
        }
        assert forall|i: int| 0 <= i < units.len() implies processed(r).contains(
            #[trigger] units[i],
        ) by {
            if i < units.len() - 1 {
                assert(before[i] == units[i]);
            }
        }
    }
}

/// A round that finds a page waiting leaves fewer pages to be processed.
pub proof fn lemma_round_progress(
    m: Map<Seq<char>, EntryState>,
    site: Map<Seq<char>, Seq<Seq<char>>>,
    batch: Seq<Seq<char>>,
    pages: Set<Seq<char>>,
)
    requires
        pages.finite(),
        m.dom().subset_of(pages),
        closed_under(pages, site),
        is_round(m, batch),
    ensures
        after_units(m, site, batch).dom().subset_of(pages),
        remaining(pages, after_units(m, site, batch)).len() < remaining(pages, m).len(),
{
    assert forall|i: int| 0 <= i < batch.len() implies pages.contains(#[trigger] batch[i]) by {
        assert(pending(m).contains(batch[i]));
    }
    lemma_units(m, site, batch, pages);
    let r = after_units(m, site, batch);
    let first = batch[0];
    let left = remaining(pages, m);
    let left_after = remaining(pages, r);
    assert(left_after.subset_of(left.remove(first))) by {
        assert forall|key: Seq<char>| left_after.contains(key) implies left.remove(first).contains(
            key,
        ) by {
            if processed(m).contains(key) {
                assert(processed(r).contains(key));
            }
        }
    }
    lemma_len_subset(left_after, left.remove(first));
}

/// Termination. On a finite site that holds every page its pages link to,
/// the rounds that find a page waiting are no more than the pages that were
/// still to be processed at the start: after that many, the scan is empty.
pub proof fn lemma_rounds_are_bounded(
    m: Map<Seq<char>, EntryState>,
    site: Map<Seq<char>, Seq<Seq<char>>>,
    rounds: Seq<Seq<Seq<char>>>,
    pages: Set<Seq<char>>,
)
    requires
        pages.finite(),
        m.dom().subset_of(pages),
        closed_under(pages, site),
        valid_rounds(m, site, rounds),
    ensures
        after_rounds(m, site, rounds).dom().subset_of(pages),
        rounds.len() + remaining(pages, after_rounds(m, site, rounds)).len() <= remaining(
            pages,
            m,
        ).len(),
        rounds.len() <= pages.len(),
    decreases rounds.len(),
{
    lemma_len_subset(remaining(pages, m), pages);
    if rounds.len() > 0 {
        let before = rounds.drop_last();
        assert forall|k: int| 0 <= k < before.len() implies is_round(
            after_rounds(m, site, before.take(k)),
            #[trigger] before[k],
        ) by {
            assert(before.take(k) =~= rounds.take(k));
        }
        lemma_rounds_are_bounded(m, site, before, pages);
        let mid = after_rounds(m, site, before);
        lemma_round_progress(mid, site, rounds.last(), pages);
    }
}

} // verus!
