//! The frontier: which pages have been discovered, and which of them have
//! been processed. It is the typed image of the durable store; every change
//! made here names the record that has to be written there.

use vstd::prelude::*;

verus! {

/// The state of a discovered page.
#[derive(Clone, Copy, Debug, PartialEq, Eq, Structural)]
pub enum EntryState {
    /// Discovered, not yet fetched.
    Unprocessed,
    /// Fetched, or given up on.
    Processed,
}

/// What can go wrong in a crawl.
#[derive(Clone, Copy, Debug, PartialEq, Eq, Structural)]
pub enum Failure {
    /// One page could not be fetched or read.
    Fetch,
    /// The durable store failed.
    Store,
    /// The durable store holds a state that is neither of the two.
    Integrity,
}

impl Failure {
    /// Whether the crawl has to stop. Only the failure of one page is
    /// survived.
    pub open spec fn fatal(self) -> bool {
        self != Failure::Fetch
    }

    /// Whether the crawl has to stop.
    pub fn is_fatal(self) -> (r: bool)
        ensures
            r == self.fatal(),
    {
        match self {
            Failure::Fetch => false,
            Failure::Store => true,
            Failure::Integrity => true,
        }
    }
}

/// The record value that stands for a state: `0` or `1` in ASCII.
pub open spec fn state_record(state: EntryState) -> Seq<u8> {
    match state {
        EntryState::Unprocessed => seq![0x30u8],
        EntryState::Processed => seq![0x31u8],
    }
}

/// The state that a record value stands for, if it stands for one.
pub open spec fn record_state(value: Seq<u8>) -> Option<EntryState> {
    if value == seq![0x30u8] {
        Some(EntryState::Unprocessed)
    } else if value == seq![0x31u8] {
        Some(EntryState::Processed)
    } else {
        None
    }
}

/// The record value that stands for `state`.
pub fn encode_state(state: EntryState) -> (value: Vec<u8>)
    ensures
        value@ == state_record(state),
        record_state(value@) == Some(state),
{
    let mut value: Vec<u8> = Vec::new();
    match state {
        EntryState::Unprocessed => value.push(0x30u8),
        EntryState::Processed => value.push(0x31u8),
    }
    proof {
        assert(seq![0x30u8][0] != seq![0x31u8][0]);
    }
    value
}

/// The state that a record value stands for; `None` for any other value.
pub fn decode_state(value: &Vec<u8>) -> (state: Option<EntryState>)
    ensures
        state == record_state(value@),
{
    if value.len() != 1 {
        return None;
    }
    let byte: u8 = value[0];
    if byte == 0x30u8 {
        proof {
            assert(value@ =~= seq![0x30u8]);
        }
        Some(EntryState::Unprocessed)
    } else if byte == 0x31u8 {
        proof {
            assert(value@ =~= seq![0x31u8]);
        }
        Some(EntryState::Processed)
    } else {
        None
    }
}

/// One page of the frontier.
pub struct Entry {
    pub url: String,
    pub state: EntryState,
}

/// No URL stands twice among `entries`.
pub open spec fn distinct_keys(entries: Seq<Entry>) -> bool {
    forall|i: int, j: int| 0 <= i < j < entries.len() ==> entries[i].url@ != entries[j].url@
}

/// `key` is the URL of one of `entries`.
pub open spec fn holds_key(entries: Seq<Entry>, key: Seq<char>) -> bool {
    exists|i: int| 0 <= i < entries.len() && entries[i].url@ == key
}

/// Where `key` stands among `entries`.
pub open spec fn index_of_key(entries: Seq<Entry>, key: Seq<char>) -> int {
    choose|i: int| 0 <= i < entries.len() && entries[i].url@ == key
}

/// The mapping that `entries` write down.
pub open spec fn model_of(entries: Seq<Entry>) -> Map<Seq<char>, EntryState> {
    Map::new(
        |key: Seq<char>| holds_key(entries, key),
        |key: Seq<char>| entries[index_of_key(entries, key)].state,
    )
}

/// The keys of `m` that wait to be processed.
pub open spec fn pending(m: Map<Seq<char>, EntryState>) -> Set<Seq<char>> {
    Set::new(|key: Seq<char>| m.contains_key(key) && m[key] == EntryState::Unprocessed)
}

/// The keys of `m` that have been processed.
pub open spec fn processed(m: Map<Seq<char>, EntryState>) -> Set<Seq<char>> {
    Set::new(|key: Seq<char>| m.contains_key(key) && m[key] == EntryState::Processed)
}

/// `m` after `key` has been discovered: a new key waits, a known key keeps
/// its state.
pub open spec fn discovered(m: Map<Seq<char>, EntryState>, key: Seq<char>) -> Map<
    Seq<char>,
    EntryState,
> {
    if m.contains_key(key) {
        m
    } else {
        m.insert(key, EntryState::Unprocessed)
    }
}

/// `m` after `key` has been processed.
pub open spec fn completed(m: Map<Seq<char>, EntryState>, key: Seq<char>) -> Map<
    Seq<char>,
    EntryState,
> {
    m.insert(key, EntryState::Processed)
}

/// Some key of `m` waits to be processed.
pub open spec fn has_pending(m: Map<Seq<char>, EntryState>) -> bool {
    exists|key: Seq<char>| pending(m).contains(key)
}

/// Stored records as plain values: the key as text, the value as bytes.
pub open spec fn records_view(records: Seq<(String, Vec<u8>)>) -> Seq<(Seq<char>, Seq<u8>)> {
    records.map_values(|r: (String, Vec<u8>)| (r.0@, r.1@))
}

/// Every record value stands for a state.
pub open spec fn all_valid(records: Seq<(Seq<char>, Seq<u8>)>) -> bool {
    forall|i: int| 0 <= i < records.len() ==> record_state(#[trigger] records[i].1) is Some
}

/// The mapping that valid records write down, a later record of a key
/// replacing an earlier one.
pub open spec fn loaded(records: Seq<(Seq<char>, Seq<u8>)>) -> Map<Seq<char>, EntryState>
    decreases records.len(),
{
    if records.len() == 0 {
        Map::empty()
    } else {
        loaded(records.drop_last()).insert(records.last().0, record_state(records.last().1)->0)
    }
}

/// `m` after `key` has been discovered `times` times over.
pub open spec fn rediscovered(m: Map<Seq<char>, EntryState>, key: Seq<char>, times: nat) -> Map<
    Seq<char>,
    EntryState,
>
    decreases times,
{
    if times == 0 {
        m
    } else {
        discovered(rediscovered(m, key, (times - 1) as nat), key)
    }
}

/// Monotone state. Discovering a known page again, however often, changes
/// nothing: a processed page is never set back to waiting.
pub proof fn lemma_rediscovery_is_idle(m: Map<Seq<char>, EntryState>, key: Seq<char>, times: nat)
    requires
        m.contains_key(key),
    ensures
        rediscovered(m, key, times) == m,
        m[key] == EntryState::Processed ==> rediscovered(m, key, times)[key]
            == EntryState::Processed,
    decreases times,
{
    if times > 0 {
        lemma_rediscovery_is_idle(m, key, (times - 1) as nat);
    }
}

/// Among distinct keys, each entry is what the mapping holds for its URL.
proof fn lemma_model_at(entries: Seq<Entry>, i: int)
    requires
        distinct_keys(entries),
        0 <= i < entries.len(),
    ensures
        model_of(entries).contains_key(entries[i].url@),
        model_of(entries)[entries[i].url@] == entries[i].state,
        index_of_key(entries, entries[i].url@) == i,
{
    let key = entries[i].url@;
    let j = index_of_key(entries, key);
    if j < i {
        assert(entries[j].url@ != entries[i].url@);
    } else if i < j {
        assert(entries[i].url@ != entries[j].url@);
    }
}

/// Appending an entry with a new URL inserts it into the mapping.
proof fn lemma_model_push(entries: Seq<Entry>, entry: Entry)
    requires
        distinct_keys(entries),
        !holds_key(entries, entry.url@),
    ensures
        distinct_keys(entries.push(entry)),
        model_of(entries.push(entry)) == model_of(entries).insert(entry.url@, entry.state),
{
    let after = entries.push(entry);
    let n = entries.len() as int;
    assert forall|i: int, j: int| 0 <= i < j < after.len() implies after[i].url@ != after[j].url@ by {
        if j == n {
            if after[i].url@ == entry.url@ {
                assert(entries[i].url@ == entry.url@);
            }
        } else {
            assert(entries[i].url@ != entries[j].url@);
        }
    }
    let expected = model_of(entries).insert(entry.url@, entry.state);
    assert forall|key: Seq<char>| model_of(after).contains_key(key) <==> expected.contains_key(
        key,
    ) by {
        if holds_key(after, key) {
            let i = index_of_key(after, key);
            if i < n {
                assert(entries[i].url@ == key);
            }
        }
        if holds_key(entries, key) {
            let i = index_of_key(entries, key);
            assert(after[i].url@ == key);
        }
        if key == entry.url@ {
            assert(after[n].url@ == key);
        }
    }
    assert forall|key: Seq<char>| model_of(after).contains_key(key) implies model_of(after)[key]
        == expected[key] by {
        let i = index_of_key(after, key);
        if i < n {
            lemma_model_at(entries, i);
        }
    }
}

/// Replacing an entry by one of the same URL overwrites it in the mapping.
proof fn lemma_model_update(entries: Seq<Entry>, i: int, entry: Entry)
    requires
        distinct_keys(entries),
        0 <= i < entries.len(),
        entry.url@ == entries[i].url@,
    ensures
        distinct_keys(entries.update(i, entry)),
        model_of(entries.update(i, entry)) == model_of(entries).insert(entry.url@, entry.state),
{
    let after = entries.update(i, entry);
    assert forall|a: int, b: int| 0 <= a < b < after.len() implies after[a].url@ != after[b].url@ by {
        assert(entries[a].url@ != entries[b].url@);
    }
    let expected = model_of(entries).insert(entry.url@, entry.state);
    assert forall|key: Seq<char>| model_of(after).contains_key(key) <==> expected.contains_key(
        key,
    ) by {
        if holds_key(after, key) {
            let j = index_of_key(after, key);
            assert(entries[j].url@ == key);
        }
        if holds_key(entries, key) {
            let j = index_of_key(entries, key);
            assert(after[j].url@ == key);
        }
        if key == entry.url@ {
            assert(after[i].url@ == key);
        }
    }
    assert forall|key: Seq<char>| model_of(after).contains_key(key) implies model_of(after)[key]
        == expected[key] by {
        let j = index_of_key(after, key);
        lemma_model_at(after, j);
        if j != i {
            lemma_model_at(entries, j);
        }
    }
}

/// The frontier of a crawl: every discovered URL once, with its state.
pub struct Frontier {
    entries: Vec<Entry>,
}

impl View for Frontier {
    type V = Map<Seq<char>, EntryState>;

    closed spec fn view(&self) -> Map<Seq<char>, EntryState> {
        model_of(self.entries@)
    }
}

impl Frontier {
    /// No URL stands twice.
    #[verifier::type_invariant]
    closed spec fn well_formed(&self) -> bool {
        distinct_keys(self.entries@)
    }

    /// A frontier that holds nothing.
    pub fn new() -> (frontier: Frontier)
        ensures
            frontier@ == Map::<Seq<char>, EntryState>::empty(),
    {
        Frontier { entries: Vec::new() }
    }

    /// Where the entry of `key` stands, if there is one.
    fn position(&self, key: &String) -> (r: Option<usize>)
        ensures
            match r {
                Some(i) => i < self.entries@.len() && self.entries@[i as int].url@ == key@,
                None => !holds_key(self.entries@, key@),
            },
    {
        let mut i: usize = 0;
        while i < self.entries.len()
            invariant
                i <= self.entries@.len(),
                forall|j: int| 0 <= j < i ==> self.entries@[j].url@ != key@,
            decreases self.entries@.len() - i,
        {
            if self.entries[i].url == *key {
                return Some(i);
            }
            i += 1;
        }
        None
    }

    /// The state of `url`, if it has been discovered.
    pub fn state_of(&self, url: &str) -> (state: Option<EntryState>)
        ensures
            match state {
                Some(s) => self@.contains_key(url@) && self@[url@] == s,
                None => !self@.contains_key(url@),
            },
    {
        proof {
            use_type_invariant(self);
        }
        let key = url.to_owned();
        match self.position(&key) {
            Some(i) => {
                proof {
                    lemma_model_at(self.entries@, i as int);
                }
                Some(self.entries[i].state)
            },
            None => None,
        }
    }

    /// Records `url` with `state`, whether or not it was known.
    pub fn put(&mut self, url: &str, state: EntryState)
        ensures
            final(self)@ == old(self)@.insert(url@, state),
    {
        proof {
            use_type_invariant(&*self);
        }
        let key = url.to_owned();
        let entry = Entry { url: key, state };
        match self.position(&entry.url) {
            Some(i) => {
                proof {
                    lemma_model_update(self.entries@, i as int, entry);
                }
                let mut entries: Vec<Entry> = Vec::new();
                std::mem::swap(&mut self.entries, &mut entries);
                entries.set(i, entry);
                self.entries = entries;
            },
            None => {
                proof {
                    lemma_model_push(self.entries@, entry);
                }
                let mut entries: Vec<Entry> = Vec::new();
                std::mem::swap(&mut self.entries, &mut entries);
                entries.push(entry);
                self.entries = entries;
            },
        }
    }

    /// Records `url` as waiting, unless it is known already: a known URL
    /// keeps its state. Returns whether the URL was new.
    pub fn insert_if_absent(&mut self, url: &str) -> (inserted: bool)
        ensures
            final(self)@ == discovered(old(self)@, url@),
            inserted == !old(self)@.contains_key(url@),
    {
        proof {
            use_type_invariant(&*self);
        }
        let key = url.to_owned();
        match self.position(&key) {
            Some(i) => {
                proof {
                    lemma_model_at(self.entries@, i as int);
                }
                false
            },
            None => {
                let entry = Entry { url: key, state: EntryState::Unprocessed };
                proof {
                    lemma_model_push(self.entries@, entry);
                }
                let mut entries: Vec<Entry> = Vec::new();
                std::mem::swap(&mut self.entries, &mut entries);
                entries.push(entry);
                self.entries = entries;
                true
            },
        }
    }

    /// Every URL that waits to be processed, each once, in the order of the
    /// store.
    pub fn scan_unprocessed(&self) -> (batch: Vec<String>)
        ensures
            batch.deep_view().no_duplicates(),
            forall|key: Seq<char>| batch.deep_view().contains(key) <==> pending(self@).contains(key),
    {
        proof {
            use_type_invariant(self);
        }
        let mut batch: Vec<String> = Vec::new();
        let ghost mut src: Seq<int> = Seq::empty();
        let mut i: usize = 0;
        while i < self.entries.len()
            invariant
                i <= self.entries@.len(),
                src.len() == batch@.len(),
                forall|j: int|
                    0 <= j < src.len() ==> 0 <= #[trigger] src[j] < i && batch@[j]@
                        == self.entries@[src[j]].url@ && self.entries@[src[j]].state
                        == EntryState::Unprocessed,
                forall|a: int, b: int| 0 <= a < b < src.len() ==> src[a] < src[b],
                forall|k: int|
                    0 <= k < i && (#[trigger] self.entries@[k]).state == EntryState::Unprocessed
                        ==> src.contains(k),
            decreases self.entries@.len() - i,
        {
            if self.entries[i].state == EntryState::Unprocessed {
                batch.push(self.entries[i].url.clone());
                proof {
                    let before = src;
                    src = src.push(i as int);
                    assert forall|k: int|
                        0 <= k < i + 1 && (#[trigger] self.entries@[k]).state
                            == EntryState::Unprocessed implies src.contains(k) by {
                        if k < i {
                            let j = choose|j: int| 0 <= j < before.len() && before[j] == k;
                            assert(src[j] == k);
                        } else {
                            assert(src[before.len() as int] == k);
                        }
                    }
                }
            }
            i += 1;
        }
        proof {
            let keys = batch.deep_view();
            assert forall|a: int, b: int| 0 <= a < keys.len() && 0 <= b < keys.len() && a
                != b implies keys[a] != keys[b] by {
                if a < b {
                    assert(src[a] < src[b]);
                } else {
                    assert(src[b] < src[a]);
                }
            }
            assert forall|key: Seq<char>| keys.contains(key) <==> pending(self@).contains(
                key,
            ) by {
                if keys.contains(key) {
                    let j = choose|j: int| 0 <= j < keys.len() && keys[j] == key;
                    lemma_model_at(self.entries@, src[j]);
                }
                if pending(self@).contains(key) {
                    let k = index_of_key(self.entries@, key);
                    lemma_model_at(self.entries@, k);
                    let j = choose|j: int| 0 <= j < src.len() && src[j] == k;
                    assert(keys[j] == key);
                }
            }
        }
        batch
    }

    /// Whether any URL waits to be processed.
    pub fn has_any_unprocessed(&self) -> (r: bool)
        ensures
            r == has_pending(self@),
    {
        proof {
            use_type_invariant(self);
        }
        let mut i: usize = 0;
        while i < self.entries.len()
            invariant
                i <= self.entries@.len(),
                distinct_keys(self.entries@),
                forall|k: int|
                    0 <= k < i ==> (#[trigger] self.entries@[k]).state != EntryState::Unprocessed,
            decreases self.entries@.len() - i,
        {
            if self.entries[i].state == EntryState::Unprocessed {
                proof {
                    lemma_model_at(self.entries@, i as int);
                    assert(pending(self@).contains(self.entries@[i as int].url@));
                }
                return true;
            }
            i += 1;
        }
        proof {
            assert forall|key: Seq<char>| !pending(self@).contains(key) by {
                if self@.contains_key(key) {
                    let k = index_of_key(self.entries@, key);
                    lemma_model_at(self.entries@, k);
                }
            }
        }
        false
    }

    /// The frontier that stored records write down. A record whose value is
    /// neither state is an integrity failure.
    pub fn from_records(records: &Vec<(String, Vec<u8>)>) -> (r: Result<Frontier, Failure>)
        ensures
            match r {
                Ok(frontier) => all_valid(records_view(records@)) && frontier@ == loaded(
                    records_view(records@),
                ),
                Err(failure) => failure == Failure::Integrity && !all_valid(
                    records_view(records@),
                ),
            },
    {
        let ghost all = records_view(records@);
        let mut frontier = Frontier::new();
        let mut i: usize = 0;
        while i < records.len()
            invariant
                i <= records@.len(),
                all == records_view(records@),
                all_valid(all.take(i as int)),
                frontier@ == loaded(all.take(i as int)),
            decreases records@.len() - i,
        {
            proof {
                assert(all.take(i + 1).drop_last() =~= all.take(i as int));
                assert(all.take(i + 1).last() == all[i as int]);
            }
            match decode_state(&records[i].1) {
                Some(state) => {
                    frontier.put(records[i].0.as_str(), state);
                    proof {
                        assert forall|j: int| 0 <= j < i + 1 implies record_state(
                            #[trigger] all.take(i + 1)[j].1,
                        ) is Some by {
                            if j < i {
                                assert(all.take(i as int)[j] == all[j]);
                            }
                        }
                    }
                },
                None => {
                    return Err(Failure::Integrity);
                },
            }
            i += 1;
        }
        proof {
            assert(all.take(i as int) =~= all);
        }
        Ok(frontier)
    }

    /// Records `url` as processed, whatever it was before.
    pub fn mark_processed(&mut self, url: &str)
        ensures
            final(self)@ == completed(old(self)@, url@),
    {
        self.put(url, EntryState::Processed)
    }
}

} // verus!
