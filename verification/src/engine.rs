//! The crawl engine: owns the frontier and the entry table, dispatches
//! on protocol status codes, extracts links from fetched gemtext, and
//! keeps the invariants the crawl depends on — one entry per normalized
//! address, a bounded table when a bound is configured, and a frontier
//! that only ever holds addresses not yet fetched.
//!
//! The engine never touches the network: the caller fetches and hands
//! the raw response bytes to `handle_fetch`, or reports a timeout or a
//! transport failure through the marking methods.

use vstd::prelude::*;

use crate::address::{Address, AddressV, AddrError, canon_of, resolve, resolve_spec};

verus! {

/// Everything known about one discovered address.
#[derive(Debug, Clone, PartialEq, Eq)]
pub struct UrlInfo {
    /// Every address that linked here, one entry per discovery, in
    /// discovery order.
    pub referred_from: Vec<String>,
    /// The fetch attempt hit its deadline.
    pub timed_out: bool,
    /// The response was not decodable text or had an unusable header.
    pub malformed_response: bool,
    /// The last protocol response code; 0 until a response is recorded.
    pub response_code: usize,
    /// The free-text remainder of the response header.
    pub metatext: String,
}

/// Mathematical model of `UrlInfo`.
pub struct UrlInfoV {
    pub referred_from: Seq<Seq<char>>,
    pub timed_out: bool,
    pub malformed_response: bool,
    pub response_code: usize,
    pub metatext: Seq<char>,
}

impl View for UrlInfo {
    type V = UrlInfoV;

    open spec fn view(&self) -> UrlInfoV {
        UrlInfoV {
            referred_from: crate::strutil::strs_view(self.referred_from@),
            timed_out: self.timed_out,
            malformed_response: self.malformed_response,
            response_code: self.response_code,
            metatext: self.metatext@,
        }
    }
}

/// The model of a freshly created entry: one referrer, no flags, no code.
pub open spec fn fresh_info(referrer: Seq<char>) -> UrlInfoV {
    UrlInfoV {
        referred_from: seq![referrer],
        timed_out: false,
        malformed_response: false,
        response_code: 0,
        metatext: Seq::<char>::empty(),
    }
}

impl UrlInfo {
    /// A fresh record for an address just discovered from `referrer`.
    pub fn new(referrer: String) -> (r: UrlInfo)
        ensures
            r@ == fresh_info(referrer@),
    {
        let r = UrlInfo {
            referred_from: vec![referrer],
            timed_out: false,
            malformed_response: false,
            response_code: 0,
            metatext: String::new(),
        };
        proof {
            assert(r@.referred_from =~= seq![referrer@]);
            assert(r@ =~= fresh_info(referrer@));
        }
        r
    }
}

/// One row of the entry table: a normalized address string and what is
/// known about it.
#[derive(Debug, Clone, PartialEq, Eq)]
pub struct Entry {
    pub key: String,
    pub info: UrlInfo,
}

/// Mathematical model of `Entry`.
pub struct EntryV {
    pub key: Seq<char>,
    pub info: UrlInfoV,
}

impl View for Entry {
    type V = EntryV;

    open spec fn view(&self) -> EntryV {
        EntryV { key: self.key@, info: self.info@ }
    }
}

/// The models of a sequence of entries.
pub open spec fn entries_view(es: Seq<Entry>) -> Seq<EntryV> {
    es.map_values(|e: Entry| e@)
}

/// A frontier item: the address to fetch and its table key.
#[derive(Debug)]
pub struct Target {
    pub addr: Address,
    pub key: String,
}

/// True when some entry of `t` has key `k`.
pub open spec fn has_keyv(t: Seq<EntryV>, k: Seq<char>) -> bool {
    exists|i: int| 0 <= i < t.len() && t[i].key == k
}

/// The index of the entry of `t` with key `k`.
pub open spec fn index_of_keyv(t: Seq<EntryV>, k: Seq<char>) -> int {
    choose|i: int| 0 <= i < t.len() && t[i].key == k
}

/// True when no two entries of `t` share a key.
pub open spec fn keys_uniquev(t: Seq<EntryV>) -> bool {
    forall|i: int, j: int| 0 <= i < j < t.len() ==> t[i].key != t[j].key
}

/// True when the entry table has not outgrown a configured bound.
pub open spec fn within_bound(t: Seq<EntryV>, bound: Option<usize>) -> bool {
    match bound {
        Some(m) => t.len() <= m,
        None => true,
    }
}

/// True when a new entry may still be admitted.
pub open spec fn admits_new(t: Seq<EntryV>, bound: Option<usize>) -> bool {
    match bound {
        Some(m) => t.len() < m,
        None => true,
    }
}

/// `info` with one more referrer appended.
pub open spec fn with_referrer(info: UrlInfoV, referrer: Seq<char>) -> UrlInfoV {
    UrlInfoV { referred_from: info.referred_from.push(referrer), ..info }
}

/// The table after one discovery of `k` from referrer `r`: a known key
/// has `r` appended to its entry, a new key gets a fresh entry when the
/// bound admits one, and is dropped otherwise.
pub open spec fn discover_table(
    t: Seq<EntryV>,
    bound: Option<usize>,
    k: Seq<char>,
    r: Seq<char>,
) -> Seq<EntryV> {
    if has_keyv(t, k) {
        t.update(
            index_of_keyv(t, k),
            EntryV { key: k, info: with_referrer(t[index_of_keyv(t, k)].info, r) },
        )
    } else if admits_new(t, bound) {
        t.push(EntryV { key: k, info: fresh_info(r) })
    } else {
        t
    }
}

/// The table after a whole sequence of discoveries of `k`, one per
/// referrer in `refs`, in order.
pub open spec fn discover_fold(
    t: Seq<EntryV>,
    bound: Option<usize>,
    k: Seq<char>,
    refs: Seq<Seq<char>>,
) -> Seq<EntryV>
    decreases refs.len(),
{
    if refs.len() == 0 {
        t
    } else {
        discover_fold(discover_table(t, bound, k, refs[0]), bound, k, refs.drop_first())
    }
}

/// What `discover` did.
#[derive(Debug, PartialEq, Eq, Clone, Copy)]
pub enum DiscoverOutcome {
    /// The address was new: an entry was created and it was queued.
    Queued,
    /// The address was known: only its referrer list grew.
    Known,
    /// The address was new but the table is at its bound: dropped.
    Dropped,
}

/// The crawl state: the entry table (the source of truth for "seen"),
/// the frontier of addresses awaiting a fetch (a stack: most recently
/// discovered first), an optional bound on the table size, and the
/// checkpoint cadence counter.
pub struct Crawler {
    entries: Vec<Entry>,
    queue: Vec<Target>,
    max_entries: Option<usize>,
    save_every: usize,
    save_counter: usize,
}

impl Crawler {
    /// The entry table, in discovery order.
    pub closed spec fn table(&self) -> Seq<EntryV> {
        entries_view(self.entries@)
    }

    /// The keys queued for fetching, last to be popped first.
    pub closed spec fn frontier(&self) -> Seq<Seq<char>> {
        self.queue@.map_values(|t: Target| t.key@)
    }

    /// The configured bound on the table, if any.
    pub closed spec fn bound(&self) -> Option<usize> {
        self.max_entries
    }

    /// The configured checkpoint cadence.
    pub closed spec fn cadence(&self) -> usize {
        self.save_every
    }

    /// Fetch attempts counted since the last checkpoint.
    pub closed spec fn ticks(&self) -> usize {
        self.save_counter
    }

    /// The engine's invariant: one entry per key, the table within its
    /// bound, and every queued key present in the table, never fetched,
    /// never flagged, and queued only once.
    pub open spec fn wf(&self) -> bool {
        &&& keys_uniquev(self.table())
        &&& within_bound(self.table(), self.bound())
        &&& forall|i: int|
            0 <= i < self.frontier().len() ==> {
                &&& has_keyv(self.table(), #[trigger] self.frontier()[i])
                &&& {
                    let e = self.table()[index_of_keyv(self.table(), self.frontier()[i])];
                    &&& e.info.response_code == 0
                    &&& !e.info.timed_out
                    &&& !e.info.malformed_response
                }
            }
        &&& forall|i: int, j: int|
            0 <= i < j < self.frontier().len() ==> self.frontier()[i] != self.frontier()[j]
        &&& self.cadence() >= 1
        &&& self.ticks() < self.cadence()
    }

    /// A fresh engine with an empty table and frontier.
    pub fn new(max_entries: Option<usize>, save_every: usize) -> (r: Crawler)
        requires
            save_every >= 1,
        ensures
            r.wf(),
            r.table() == Seq::<EntryV>::empty(),
            r.frontier() == Seq::<Seq<char>>::empty(),
            r.bound() == max_entries,
            r.cadence() == save_every,
            r.ticks() == 0,
    {
        let r = Crawler {
            entries: Vec::new(),
            queue: Vec::new(),
            max_entries,
            save_every,
            save_counter: 0,
        };
        proof {
            assert(r.table() =~= Seq::<EntryV>::empty());
            assert(r.frontier() =~= Seq::<Seq<char>>::empty());
        }
        r
    }

    /// The index of the entry whose key is `key`, if one exists.
    fn find_entry(&self, key: &String) -> (r: Option<usize>)
        ensures
            match r {
                Some(i) => 0 <= i < self.table().len() && self.table()[i as int].key == key@,
                None => !has_keyv(self.table(), key@),
            },
    {
        let mut i: usize = 0;
        while i < self.entries.len()
            invariant
                i <= self.entries@.len(),
                self.table().len() == self.entries@.len(),
                forall|j: int| 0 <= j < i ==> self.table()[j].key != key@,
            decreases self.entries@.len() - i,
        {
            proof {
                assert(self.table()[i as int] == self.entries@[i as int]@);
            }
            if self.entries[i].key.eq(key) {
                return Some(i);
            }
            i = i + 1;
        }
        proof {
            assert(forall|j: int| 0 <= j < self.table().len() ==> self.table()[j].key != key@);
        }
        None
    }

    /// Registers that `addr` was discovered from `referrer`.  A new
    /// address gets a fresh entry and a place on the frontier, unless
    /// the table is at its bound, in which case it is dropped; a known
    /// address only has the referrer appended — it is never queued or
    /// fetched twice.
    #[verifier::rlimit(30)]
    pub fn discover(&mut self, addr: Address, referrer: String) -> (r: DiscoverOutcome)
        requires
            old(self).wf(),
        ensures
            final(self).wf(),
            final(self).bound() == old(self).bound(),
            final(self).cadence() == old(self).cadence(),
            final(self).ticks() == old(self).ticks(),
            final(self).table() == discover_table(
                old(self).table(),
                old(self).bound(),
                addr.canon_spec(),
                referrer@,
            ),
            ({
                let t0 = old(self).table();
                let k = addr.canon_spec();
                if has_keyv(t0, k) {
                    let i = index_of_keyv(t0, k);
                    &&& r == DiscoverOutcome::Known
                    &&& final(self).table() == t0.update(
                        i,
                        EntryV { key: k, info: with_referrer(t0[i].info, referrer@) },
                    )
                    &&& final(self).frontier() == old(self).frontier()
                } else if admits_new(t0, old(self).bound()) {
                    &&& r == DiscoverOutcome::Queued
                    &&& final(self).table() == t0.push(EntryV { key: k, info: fresh_info(referrer@) })
                    &&& final(self).frontier() == old(self).frontier().push(k)
                } else {
                    &&& r == DiscoverOutcome::Dropped
                    &&& final(self).table() == t0
                    &&& final(self).frontier() == old(self).frontier()
                }
            }),
    {
        let key = addr.canon();
        match self.find_entry(&key) {
            Some(i) => {
                proof {
                    lemma_key_at_index(self.table(), i as int);
                }
                let mut e = self.entries.remove(i);
                e.info.referred_from.push(referrer);
                self.entries.insert(i, e);
                proof {
                    let t0 = old(self).table();
                    let t1 = self.table();
                    let k = addr.canon_spec();
                    assert(e@.info.referred_from =~= with_referrer(
                        t0[i as int].info,
                        referrer@,
                    ).referred_from);
                    assert(e@ =~= EntryV {
                        key: k,
                        info: with_referrer(t0[i as int].info, referrer@),
                    });
                    assert(t1 =~= t0.update(i as int, e@));
                    assert(self.frontier() =~= old(self).frontier());
                    assert(keys_uniquev(t1));
                    assert forall|x: int| 0 <= x < self.frontier().len() implies {
                        &&& has_keyv(t1, #[trigger] self.frontier()[x])
                        &&& {
                            let fe = t1[index_of_keyv(t1, self.frontier()[x])];
                            &&& fe.info.response_code == 0
                            &&& !fe.info.timed_out
                            &&& !fe.info.malformed_response
                        }
                    } by {
                        let fk = self.frontier()[x];
                        lemma_index_stable(t0, t1, fk);
                    }
                }
                DiscoverOutcome::Known
            },
            None => {
                let at_bound = match self.max_entries {
                    Some(m) => self.entries.len() >= m,
                    None => false,
                };
                if at_bound {
                    DiscoverOutcome::Dropped
                } else {
                    let info = UrlInfo::new(referrer);
                    let key2 = key.clone();
                    let entry = Entry { key: key2, info };
                    self.entries.push(entry);
                    self.queue.push(Target { addr, key });
                    proof {
                        let t0 = old(self).table();
                        let t1 = self.table();
                        let k = addr.canon_spec();
                        assert(entry@ =~= EntryV { key: k, info: fresh_info(referrer@) });
                        assert(t1 =~= t0.push(entry@));
                        assert(self.frontier() =~= old(self).frontier().push(k));
                        assert(keys_uniquev(t1)) by {
                            assert(forall|j: int| 0 <= j < t0.len() ==> t0[j].key != k);
                        }
                        assert forall|x: int| 0 <= x < self.frontier().len() implies {
                            &&& has_keyv(t1, #[trigger] self.frontier()[x])
                            &&& {
                                let fe = t1[index_of_keyv(t1, self.frontier()[x])];
                                &&& fe.info.response_code == 0
                                &&& !fe.info.timed_out
                                &&& !fe.info.malformed_response
                            }
                        } by {
                            let fk = self.frontier()[x];
                            if x < old(self).frontier().len() {
                                assert(old(self).frontier()[x] == fk);
                                lemma_index_stable(t0, t1, fk);
                            } else {
                                assert(fk == k);
                                assert(t1[t0.len() as int].key == k);
                                lemma_key_at_index(t1, t0.len() as int);
                            }
                        }
                        assert(forall|x: int|
                            0 <= x < old(self).frontier().len() ==> old(self).frontier()[x] != k);
                    }
                    DiscoverOutcome::Queued
                }
            },
        }
    }
}

impl Crawler {
    /// Takes the next address to fetch off the frontier: the most
    /// recently discovered one.  Whatever comes back is in the table,
    /// never fetched and never flagged.
    pub fn pop_next(&mut self) -> (r: Option<Target>)
        requires
            old(self).wf(),
        ensures
            final(self).wf(),
            final(self).table() == old(self).table(),
            final(self).bound() == old(self).bound(),
            final(self).cadence() == old(self).cadence(),
            final(self).ticks() == old(self).ticks(),
            match r {
                None => old(self).frontier().len() == 0 && final(self).frontier() == old(
                    self,
                ).frontier(),
                Some(t) => {
                    &&& old(self).frontier().len() > 0
                    &&& final(self).frontier() == old(self).frontier().drop_last()
                    &&& t.key@ == old(self).frontier().last()
                    &&& has_keyv(old(self).table(), t.key@)
                    &&& {
                        let e = old(self).table()[index_of_keyv(old(self).table(), t.key@)];
                        &&& e.info.response_code == 0
                        &&& !e.info.timed_out
                        &&& !e.info.malformed_response
                    }
                },
            },
    {
        let r = self.queue.pop();
        proof {
            match &r {
                Some(t) => {
                    assert(self.frontier() =~= old(self).frontier().drop_last());
                    assert(old(self).frontier().last() == old(self).frontier()[old(
                        self,
                    ).frontier().len() - 1]);
                },
                None => {
                    assert(self.frontier() =~= old(self).frontier());
                },
            }
        }
        r
    }

    /// Marks the entry for `key` as having timed out.  The address is
    /// not retried: it never returns to the frontier.
    pub fn mark_timed_out(&mut self, key: &String)
        requires
            old(self).wf(),
            has_keyv(old(self).table(), key@),
            !old(self).frontier().contains(key@),
        ensures
            final(self).wf(),
            ({
                let t0 = old(self).table();
                let i = index_of_keyv(t0, key@);
                final(self).table() == t0.update(
                    i,
                    EntryV {
                        key: key@,
                        info: UrlInfoV { timed_out: true, ..t0[i].info },
                    },
                )
            }),
            final(self).frontier() == old(self).frontier(),
            final(self).bound() == old(self).bound(),
            final(self).cadence() == old(self).cadence(),
            final(self).ticks() == old(self).ticks(),
    {
        let i = match self.find_entry(key) {
            Some(i) => i,
            None => {
                proof {
                    assert(false);
                }
                0
            },
        };
        proof {
            lemma_key_at_index(self.table(), i as int);
        }
        let mut e = self.entries.remove(i);
        e.info.timed_out = true;
        self.entries.insert(i, e);
        proof {
            let t0 = old(self).table();
            let i0 = index_of_keyv(t0, key@);
            assert(e@ =~= EntryV { key: key@, info: UrlInfoV { timed_out: true, ..t0[i0].info } });
            assert(self.table() =~= t0.update(i0, e@));
            assert(self.frontier() =~= old(self).frontier());
            assert(keys_uniquev(self.table()));
            assert forall|x: int| 0 <= x < self.frontier().len() implies {
                &&& has_keyv(self.table(), #[trigger] self.frontier()[x])
                &&& {
                    let fe = self.table()[index_of_keyv(self.table(), self.frontier()[x])];
                    &&& fe.info.response_code == 0
                    &&& !fe.info.timed_out
                    &&& !fe.info.malformed_response
                }
            } by {
                let fk = self.frontier()[x];
                lemma_index_stable(t0, self.table(), fk);
                assert(old(self).frontier().contains(fk)) by {
                    assert(old(self).frontier()[x] == fk);
                }
                assert(fk != key@);
            }
        }
    }

    /// Marks the entry for `key` as having answered with bytes that are
    /// not usable text.  No links are extracted from such a response.
    pub fn mark_malformed(&mut self, key: &String)
        requires
            old(self).wf(),
            has_keyv(old(self).table(), key@),
            !old(self).frontier().contains(key@),
        ensures
            final(self).wf(),
            ({
                let t0 = old(self).table();
                let i = index_of_keyv(t0, key@);
                final(self).table() == t0.update(
                    i,
                    EntryV {
                        key: key@,
                        info: UrlInfoV { malformed_response: true, ..t0[i].info },
                    },
                )
            }),
            final(self).frontier() == old(self).frontier(),
            final(self).bound() == old(self).bound(),
            final(self).cadence() == old(self).cadence(),
            final(self).ticks() == old(self).ticks(),
    {
        let i = match self.find_entry(key) {
            Some(i) => i,
            None => {
                proof {
                    assert(false);
                }
                0
            },
        };
        proof {
            lemma_key_at_index(self.table(), i as int);
        }
        let mut e = self.entries.remove(i);
        e.info.malformed_response = true;
        self.entries.insert(i, e);
        proof {
            let t0 = old(self).table();
            let i0 = index_of_keyv(t0, key@);
            assert(e@ =~= EntryV {
                key: key@,
                info: UrlInfoV { malformed_response: true, ..t0[i0].info },
            });
            assert(self.table() =~= t0.update(i0, e@));
            assert(self.frontier() =~= old(self).frontier());
            assert(keys_uniquev(self.table()));
            assert forall|x: int| 0 <= x < self.frontier().len() implies {
                &&& has_keyv(self.table(), #[trigger] self.frontier()[x])
                &&& {
                    let fe = self.table()[index_of_keyv(self.table(), self.frontier()[x])];
                    &&& fe.info.response_code == 0
                    &&& !fe.info.timed_out
                    &&& !fe.info.malformed_response
                }
            } by {
                let fk = self.frontier()[x];
                lemma_index_stable(t0, self.table(), fk);
                assert(old(self).frontier().contains(fk)) by {
                    assert(old(self).frontier()[x] == fk);
                }
                assert(fk != key@);
            }
        }
    }

    /// Records the response code and header text for `key`'s entry.
    pub fn record_response(&mut self, key: &String, code: usize, meta: String)
        requires
            old(self).wf(),
            has_keyv(old(self).table(), key@),
            !old(self).frontier().contains(key@),
        ensures
            final(self).wf(),
            ({
                let t0 = old(self).table();
                let i = index_of_keyv(t0, key@);
                final(self).table() == t0.update(
                    i,
                    EntryV {
                        key: key@,
                        info: UrlInfoV {
                            response_code: code,
                            metatext: meta@,
                            ..t0[i].info
                        },
                    },
                )
            }),
            final(self).frontier() == old(self).frontier(),
            final(self).bound() == old(self).bound(),
            final(self).cadence() == old(self).cadence(),
            final(self).ticks() == old(self).ticks(),
    {
        let i = match self.find_entry(key) {
            Some(i) => i,
            None => {
                proof {
                    assert(false);
                }
                0
            },
        };
        proof {
            lemma_key_at_index(self.table(), i as int);
        }
        let mut e = self.entries.remove(i);
        e.info.response_code = code;
        e.info.metatext = meta;
        self.entries.insert(i, e);
        proof {
            let t0 = old(self).table();
            let i0 = index_of_keyv(t0, key@);
            assert(e@ =~= EntryV {
                key: key@,
                info: UrlInfoV { response_code: code, metatext: meta@, ..t0[i0].info },
            });
            assert(self.table() =~= t0.update(i0, e@));
            assert(self.frontier() =~= old(self).frontier());
            assert(keys_uniquev(self.table()));
            assert forall|x: int| 0 <= x < self.frontier().len() implies {
                &&& has_keyv(self.table(), #[trigger] self.frontier()[x])
                &&& {
                    let fe = self.table()[index_of_keyv(self.table(), self.frontier()[x])];
                    &&& fe.info.response_code == 0
                    &&& !fe.info.timed_out
                    &&& !fe.info.malformed_response
                }
            } by {
                let fk = self.frontier()[x];
                lemma_index_stable(t0, self.table(), fk);
                assert(old(self).frontier().contains(fk)) by {
                    assert(old(self).frontier()[x] == fk);
                }
                assert(fk != key@);
            }
        }
    }

    /// Counts one fetch attempt towards the checkpoint cadence; true
    /// when a checkpoint is due, at every `cadence`-th attempt.
    pub fn tick_save(&mut self) -> (r: bool)
        requires
            old(self).wf(),
        ensures
            final(self).wf(),
            final(self).table() == old(self).table(),
            final(self).frontier() == old(self).frontier(),
            final(self).bound() == old(self).bound(),
            final(self).cadence() == old(self).cadence(),
            r == (old(self).ticks() + 1 == old(self).cadence()),
            final(self).ticks() == if r {
                0usize
            } else {
                (old(self).ticks() + 1) as usize
            },
    {
        self.save_counter = self.save_counter + 1;
        let due = self.save_counter == self.save_every;
        if due {
            self.save_counter = 0;
        }
        proof {
            assert(self.table() =~= old(self).table());
            assert(self.frontier() =~= old(self).frontier());
        }
        due
    }

    /// How many addresses await a fetch.
    pub fn frontier_len(&self) -> (r: usize)
        ensures
            r == self.frontier().len(),
    {
        self.queue.len()
    }

    /// How many addresses have ever been discovered.
    pub fn entry_count(&self) -> (r: usize)
        ensures
            r == self.table().len(),
    {
        self.entries.len()
    }

    /// The entry table itself, for checkpointing.
    pub fn entry_table(&self) -> (r: &Vec<Entry>)
        ensures
            entries_view(r@) == self.table(),
    {
        &self.entries
    }

    /// True when the table has an entry for `key`.
    pub fn contains_key(&self, key: &String) -> (r: bool)
        ensures
            r == has_keyv(self.table(), key@),
    {
        match self.find_entry(key) {
            Some(i) => {
                proof {
                    assert(has_keyv(self.table(), key@)) by {
                        assert(self.table()[i as int].key == key@);
                    }
                }
                true
            },
            None => false,
        }
    }

    /// True when `key` is still waiting on the frontier.
    pub fn frontier_contains(&self, key: &String) -> (r: bool)
        ensures
            r == self.frontier().contains(key@),
    {
        let mut i: usize = 0;
        let n = self.queue.len();
        while i < n
            invariant
                n == self.frontier().len(),
                i <= n,
                forall|j: int| 0 <= j < i ==> self.frontier()[j] != key@,
            decreases n - i,
        {
            proof {
                assert(self.frontier()[i as int] == self.queue@[i as int].key@);
            }
            if self.queue[i].key.eq(key) {
                proof {
                    assert(self.frontier().contains(key@)) by {
                        assert(self.frontier()[i as int] == key@);
                    }
                }
                return true;
            }
            i = i + 1;
        }
        proof {
            assert(!self.frontier().contains(key@)) by {
                if self.frontier().contains(key@) {
                    let j = choose|j: int|
                        0 <= j < self.frontier().len() && self.frontier()[j] == key@;
                    assert(self.frontier()[j] != key@);
                }
            }
        }
        false
    }
}

/// The table a loaded checkpoint yields when folded onto `acc`: the
/// first entry for a key wins, and nothing is admitted past the bound.
pub open spec fn load_from(acc: Seq<EntryV>, s: Seq<EntryV>, bound: Option<usize>) -> Seq<EntryV>
    decreases s.len(),
{
    if s.len() == 0 {
        acc
    } else {
        let acc2 = if has_keyv(acc, s[0].key) || !admits_new(acc, bound) {
            acc
        } else {
            acc.push(s[0])
        };
        load_from(acc2, s.drop_first(), bound)
    }
}

/// The table a loaded checkpoint yields.
pub open spec fn load_spec(s: Seq<EntryV>, bound: Option<usize>) -> Seq<EntryV> {
    load_from(Seq::empty(), s, bound)
}

/// The keys a resume puts back on the frontier: those of entries never
/// actually fetched — code still 0, no flag set, no meta text recorded —
/// whose key still resolves, in table order.
pub open spec fn requeue_keys(t: Seq<EntryV>) -> Seq<Seq<char>>
    decreases t.len(),
{
    if t.len() == 0 {
        Seq::empty()
    } else {
        (if t[0].info.response_code == 0 && !t[0].info.timed_out && !t[0].info.malformed_response
            && t[0].info.metatext.len() == 0 && resolve_spec(None, t[0].key) is Ok {
            seq![t[0].key]
        } else {
            Seq::<Seq<char>>::empty()
        }) + requeue_keys(t.drop_first())
    }
}

impl Crawler {
    /// An engine resumed from a loaded checkpoint: the entries are
    /// adopted in order, first entry per key winning, up to the bound.
    /// Nothing is queued: loaded addresses count as already known, and
    /// `requeue_unfetched` puts the never-fetched ones back on the
    /// frontier.
    pub fn from_entries(loaded: Vec<Entry>, max_entries: Option<usize>, save_every: usize) -> (r:
        Crawler)
        requires
            save_every >= 1,
        ensures
            r.wf(),
            r.table() == load_spec(entries_view(loaded@), max_entries),
            r.frontier() == Seq::<Seq<char>>::empty(),
            r.bound() == max_entries,
            r.cadence() == save_every,
            r.ticks() == 0,
    {
        let ghost orig = entries_view(loaded@);
        let mut rest = loaded;
        let mut c = Crawler::new(max_entries, save_every);
        while rest.len() > 0
            invariant
                c.wf(),
                c.frontier() == Seq::<Seq<char>>::empty(),
                c.bound() == max_entries,
                c.cadence() == save_every,
                c.ticks() == 0,
                load_spec(orig, max_entries) == load_from(
                    c.table(),
                    entries_view(rest@),
                    max_entries,
                ),
            decreases rest@.len(),
        {
            let ghost rem0 = entries_view(rest@);
            let e = rest.remove(0);
            proof {
                assert(rem0[0] == e@);
                assert(entries_view(rest@) =~= rem0.drop_first());
            }
            let room = match c.max_entries {
                Some(m) => c.entries.len() < m,
                None => true,
            };
            let present = match c.find_entry(&e.key) {
                Some(_) => true,
                None => false,
            };
            if !present && room {
                let ghost t0 = c.table();
                c.entries.push(e);
                proof {
                    assert(c.table() =~= t0.push(e@));
                    assert(keys_uniquev(c.table())) by {
                        assert(forall|j: int| 0 <= j < t0.len() ==> t0[j].key != e@.key);
                    }
                    assert(c.frontier() =~= Seq::<Seq<char>>::empty());
                }
            }
        }
        proof {
            assert(entries_view(rest@).len() == 0);
        }
        c
    }

    /// Puts every entry that was never actually fetched — code still 0,
    /// no flag set, no meta text recorded — back on the frontier, in
    /// table order.  An entry whose key no longer resolves is left in
    /// the table but not queued.  Entries that carry any recorded
    /// response stay off the frontier: resuming never refetches them.
    pub fn requeue_unfetched(&mut self)
        requires
            old(self).wf(),
            old(self).frontier().len() == 0,
        ensures
            final(self).wf(),
            final(self).table() == old(self).table(),
            final(self).bound() == old(self).bound(),
            final(self).cadence() == old(self).cadence(),
            final(self).ticks() == old(self).ticks(),
            final(self).frontier() == requeue_keys(old(self).table()),
    {
        let n = self.entries.len();
        let mut i: usize = 0;
        proof {
            assert(old(self).table().skip(0) =~= old(self).table());
            assert(self.frontier() + requeue_keys(old(self).table()) =~= requeue_keys(
                old(self).table(),
            ));
        }
        while i < n
            invariant
                self.wf(),
                n == self.table().len(),
                i <= n,
                self.table() == old(self).table(),
                self.bound() == old(self).bound(),
                self.cadence() == old(self).cadence(),
                self.ticks() == old(self).ticks(),
                forall|x: int|
                    0 <= x < self.frontier().len() ==> 0 <= index_of_keyv(
                        self.table(),
                        #[trigger] self.frontier()[x],
                    ) < i,
                requeue_keys(old(self).table()) == self.frontier() + requeue_keys(
                    old(self).table().skip(i as int),
                ),
            decreases n - i,
        {
            let ghost tb = old(self).table();
            proof {
                assert(tb.skip(i as int)[0] == tb[i as int]);
                assert(tb.skip(i as int).drop_first() =~= tb.skip(i as int + 1));
                assert(tb[i as int] == self.entries@[i as int]@);
            }
            let unfetched = self.entries[i].info.response_code == 0
                && !self.entries[i].info.timed_out && !self.entries[i].info.malformed_response
                && self.entries[i].info.metatext.as_str().is_empty();
            if unfetched {
                let key = self.entries[i].key.clone();
                match resolve(None, key.as_str()) {
                    Ok(addr) => {
                        let ghost f0 = self.frontier();
                        let ghost t = self.table();
                        proof {
                            assert(t[i as int] == self.entries@[i as int]@);
                            lemma_key_at_index(t, i as int);
                        }
                        self.queue.push(Target { addr, key });
                        proof {
                            assert(self.table() =~= t);
                            assert(self.frontier() =~= f0.push(t[i as int].key));
                            assert(resolve_spec(None, t[i as int].key) is Ok);
                            assert(requeue_keys(tb.skip(i as int)) =~= seq![tb[i as int].key]
                                + requeue_keys(tb.skip(i as int + 1)));
                            assert(f0.push(t[i as int].key) + requeue_keys(tb.skip(i as int + 1))
                                =~= f0 + requeue_keys(tb.skip(i as int)));
                            assert forall|x: int, y: int|
                                0 <= x < y < self.frontier().len() implies self.frontier()[x]
                                != self.frontier()[y] by {
                                if y == self.frontier().len() - 1 {
                                    let fx = self.frontier()[x];
                                    assert(f0[x] == fx);
                                    assert(index_of_keyv(t, fx) < i);
                                    if fx == t[i as int].key {
                                        assert(index_of_keyv(t, fx) == i);
                                        assert(false);
                                    }
                                }
                            }
                            assert forall|x: int| 0 <= x < self.frontier().len() implies {
                                &&& has_keyv(self.table(), #[trigger] self.frontier()[x])
                                &&& {
                                    let fe = self.table()[index_of_keyv(
                                        self.table(),
                                        self.frontier()[x],
                                    )];
                                    &&& fe.info.response_code == 0
                                    &&& !fe.info.timed_out
                                    &&& !fe.info.malformed_response
                                }
                                &&& 0 <= index_of_keyv(self.table(), self.frontier()[x]) <= i
                            } by {
                                if x == self.frontier().len() - 1 {
                                    assert(self.frontier()[x] == t[i as int].key);
                                    assert(index_of_keyv(t, t[i as int].key) == i);
                                    assert(t[i as int].info.response_code == 0);
                                } else {
                                    assert(f0[x] == self.frontier()[x]);
                                }
                            }
                        }
                    },
                    Err(_) => {
                        proof {
                            assert(!(resolve_spec(None, tb[i as int].key) is Ok));
                            assert(requeue_keys(tb.skip(i as int)) =~= requeue_keys(
                                tb.skip(i as int + 1),
                            ));
                        }
                    },
                }
            } else {
                proof {
                    assert(requeue_keys(tb.skip(i as int)) =~= requeue_keys(
                        tb.skip(i as int + 1),
                    ));
                }
            }
            i = i + 1;
        }
        proof {
            assert(old(self).table().skip(n as int) =~= Seq::<EntryV>::empty());
            assert(self.frontier() + requeue_keys(Seq::<EntryV>::empty()) =~= self.frontier());
        }
    }
}

/// The characters of `s` before its first line feed; all of `s` when it
/// has none.
pub open spec fn first_line(s: Seq<char>) -> Seq<char>
    decreases s.len(),
{
    if s.len() == 0 {
        s
    } else if s[0] == '\n' {
        Seq::empty()
    } else {
        seq![s[0]] + first_line(s.drop_first())
    }
}

/// A scan that stopped at `i` on a line feed, or at the end, has read
/// exactly the first line.
proof fn lemma_first_line_take(s: Seq<char>, i: int)
    requires
        0 <= i <= s.len(),
        forall|j: int| 0 <= j < i ==> s[j] != '\n',
        i < s.len() ==> s[i] == '\n',
    ensures
        first_line(s) == s.take(i),
    decreases s.len(),
{
    if s.len() == 0 {
        assert(s.take(0) =~= s);
    } else if i == 0 {
        if s[0] == '\n' {
            assert(s.take(0) =~= Seq::<char>::empty());
        } else {
            assert(false);
        }
    } else {
        assert(s[0] != '\n');
        let s2 = s.drop_first();
        assert(forall|j: int| 0 <= j < i - 1 ==> s2[j] != '\n');
        if i - 1 < s2.len() {
            assert(s2[i - 1] == s[i]);
        }
        lemma_first_line_take(s2, i - 1);
        assert(seq![s[0]] + s2.take(i - 1) =~= s.take(i));
    }
}

/// The first line of `s`.
fn first_line_str(s: &str) -> (r: &str)
    ensures
        r@ == first_line(s@),
{
    let n = s.unicode_len();
    let mut i: usize = 0;
    while i < n && s.get_char(i) != '\n'
        invariant
            n == s@.len(),
            i <= n,
            forall|j: int| 0 <= j < i ==> s@[j] != '\n',
        decreases n - i,
    {
        i = i + 1;
    }
    proof {
        lemma_first_line_take(s@, i as int);
    }
    s.substring_char(0, i)
}

/// True when `c` is an ASCII decimal digit.
pub open spec fn is_digitc(c: char) -> bool {
    0x30 <= c as u32 && c as u32 <= 0x39
}

/// The value of the ASCII decimal digit `c`.
pub open spec fn digit_valc(c: char) -> int {
    c as u32 - 0x30
}

/// What a response header line means: a two-digit code followed by the
/// meta text after the separator character, or nothing when the line
/// cannot be split that way.
pub open spec fn parse_header(h: Seq<char>) -> Option<(usize, Seq<char>)> {
    if h.len() >= 3 && is_digitc(h[0]) && is_digitc(h[1]) {
        Some(((10 * digit_valc(h[0]) + digit_valc(h[1])) as usize, h.skip(3)))
    } else {
        None
    }
}

/// Splits a header line into its numeric code and meta text.
pub fn parse_header_str(h: &str) -> (r: Option<(usize, String)>)
    ensures
        match r {
            Some(p) => parse_header(h@) == Some((p.0, p.1@)),
            None => parse_header(h@) is None,
        },
{
    let n = h.unicode_len();
    if n < 3 {
        return None;
    }
    let v0 = h.get_char(0) as u32;
    let v1 = h.get_char(1) as u32;
    if v0 < 0x30 || v0 > 0x39 || v1 < 0x30 || v1 > 0x39 {
        return None;
    }
    let code = (10 * (v0 - 0x30) + (v1 - 0x30)) as usize;
    let meta = h.substring_char(3, n).to_owned();
    proof {
        assert(h@.subrange(3, n as int) =~= h@.skip(3));
    }
    Some((code, meta))
}

/// Relies on std::str::from_utf8: succeeds exactly on UTF-8 input,
/// yielding its decoded characters.
#[verifier::external_body]
fn decode_utf8_str(bytes: &[u8]) -> (r: Option<&str>)
    ensures
        match r {
            Some(s) => vstd::utf8::valid_utf8(bytes@) && s@ == vstd::utf8::decode_utf8(bytes@),
            None => !vstd::utf8::valid_utf8(bytes@),
        },
{
    std::str::from_utf8(bytes).ok()
}

/// Relies on String::push: appends one character.
#[verifier::external_body]
fn push_char(s: &mut String, c: char)
    ensures
        final(s)@ == old(s)@.push(c),
{
    s.push(c);
}

/// Each byte read as the character with the same code point: how the
/// fetched body is turned into text before link extraction.
pub open spec fn latin1(bytes: Seq<u8>) -> Seq<char> {
    bytes.map_values(|b: u8| b as char)
}

/// Decodes every byte as the character with its code point value.
fn latin1_string(data: &[u8]) -> (r: String)
    ensures
        r@ == latin1(data@),
{
    let mut out = String::new();
    let mut i: usize = 0;
    proof {
        assert(out@ =~= latin1(data@).take(0));
    }
    while i < data.len()
        invariant
            i <= data@.len(),
            out@ == latin1(data@).take(i as int),
        decreases data@.len() - i,
    {
        let b = data[i];
        push_char(&mut out, b as char);
        proof {
            assert(latin1(data@)[i as int] == data@[i as int] as char);
            assert(latin1(data@).take(i as int + 1) =~= latin1(data@).take(i as int).push(
                data@[i as int] as char,
            ));
        }
        i = i + 1;
    }
    proof {
        assert(latin1(data@).take(data@.len() as int) =~= latin1(data@));
    }
    out
}

/// The content type that triggers link extraction.
pub open spec fn text_gemini() -> Seq<char> {
    seq!['t', 'e', 'x', 't', '/', 'g', 'e', 'm', 'i', 'n', 'i']
}

/// True when the meta text announces the gemtext dialect.
fn is_text_gemini(meta: &str) -> (r: bool)
    ensures
        r == crate::gemtext::has_prefix(meta@, text_gemini()),
{
    let n = meta.unicode_len();
    if n < 11 {
        proof {
            assert(text_gemini().len() == 11);
        }
        return false;
    }
    let p = ("text/gemini").to_owned();
    let head = meta.substring_char(0, 11).to_owned();
    let r = head.eq(&p);
    proof {
        reveal_strlit("text/gemini");
        assert(p@ =~= text_gemini());
        assert(meta@.subrange(0, 11) =~= meta@.take(11));
    }
    r
}

/// True when `t1` came from `t0` by discoveries alone: every old entry
/// keeps its place, key, flags, code and meta, gaining referrers at
/// most, and every new entry is a never-fetched one.
pub open spec fn only_discoveries(t0: Seq<EntryV>, t1: Seq<EntryV>) -> bool {
    &&& t0.len() <= t1.len()
    &&& forall|i: int|
        0 <= i < t0.len() ==> {
            &&& (#[trigger] t1[i]).key == t0[i].key
            &&& t1[i].info.timed_out == t0[i].info.timed_out
            &&& t1[i].info.malformed_response == t0[i].info.malformed_response
            &&& t1[i].info.response_code == t0[i].info.response_code
            &&& t1[i].info.metatext == t0[i].info.metatext
            &&& t0[i].info.referred_from.is_prefix_of(t1[i].info.referred_from)
        }
    &&& forall|i: int|
        t0.len() <= i < t1.len() ==> {
            &&& (#[trigger] t1[i]).info.response_code == 0
            &&& !t1[i].info.timed_out
            &&& !t1[i].info.malformed_response
            &&& t1[i].info.referred_from.len() >= 1
        }
}

/// The canonical keys of the link targets that resolve against `base`,
/// in order; an unresolvable or wrong-scheme target contributes nothing.
pub open spec fn resolved_keys(base: crate::address::AddressV, tos: Seq<Seq<char>>) -> Seq<
    Seq<char>,
>
    decreases tos.len(),
{
    if tos.len() == 0 {
        Seq::empty()
    } else {
        (match crate::address::resolve_spec(Some(base), tos[0]) {
            Ok(a) => seq![crate::address::canon_of(a)],
            Err(_) => Seq::<Seq<char>>::empty(),
        }) + resolved_keys(base, tos.drop_first())
    }
}

/// The table and frontier after discovering every key of `keys` in
/// order, all from the one referrer.
pub open spec fn discover_all(
    t: Seq<EntryV>,
    f: Seq<Seq<char>>,
    bound: Option<usize>,
    referrer: Seq<char>,
    keys: Seq<Seq<char>>,
) -> (Seq<EntryV>, Seq<Seq<char>>)
    decreases keys.len(),
{
    if keys.len() == 0 {
        (t, f)
    } else {
        let k = keys[0];
        let t2 = discover_table(t, bound, k, referrer);
        let f2 = if !has_keyv(t, k) && admits_new(t, bound) {
            f.push(k)
        } else {
            f
        };
        discover_all(t2, f2, bound, referrer, keys.drop_first())
    }
}

impl Crawler {
    /// Digests the raw bytes a fetch of `key`'s address returned.
    /// Bytes that are not UTF-8, or a header that does not start with a
    /// two-digit code and a separator (an empty response among them),
    /// mark the entry malformed; otherwise the code and meta text are
    /// recorded, and when the code signals success and the meta text
    /// announces the gemtext dialect, exactly the links of the body, in
    /// document order, are resolved against `base` and discovered.
    pub fn handle_fetch(&mut self, base: &Address, key: &String, response: &[u8])
        requires
            old(self).wf(),
            has_keyv(old(self).table(), key@),
            !old(self).frontier().contains(key@),
        ensures
            final(self).wf(),
            final(self).bound() == old(self).bound(),
            final(self).cadence() == old(self).cadence(),
            final(self).ticks() == old(self).ticks(),
            old(self).frontier().is_prefix_of(final(self).frontier()),
            ({
                let t0 = old(self).table();
                let i = index_of_keyv(t0, key@);
                if !vstd::utf8::valid_utf8(response@) {
                    final(self).table() == t0.update(
                        i,
                        EntryV {
                            key: key@,
                            info: UrlInfoV { malformed_response: true, ..t0[i].info },
                        },
                    ) && final(self).frontier() == old(self).frontier()
                } else {
                    let h = parse_header(first_line(vstd::utf8::decode_utf8(response@)));
                    match h {
                        None => final(self).table() == t0.update(
                            i,
                            EntryV {
                                key: key@,
                                info: UrlInfoV { malformed_response: true, ..t0[i].info },
                            },
                        ) && final(self).frontier() == old(self).frontier(),
                        Some((code, meta)) => {
                            let t_rec = t0.update(
                                i,
                                EntryV {
                                    key: key@,
                                    info: UrlInfoV {
                                        response_code: code,
                                        metatext: meta,
                                        ..t0[i].info
                                    },
                                },
                            );
                            if code / 10 == 2 && crate::gemtext::has_prefix(meta, text_gemini()) {
                                &&& only_discoveries(t_rec, final(self).table())
                                &&& ({
                                    let pair = discover_all(
                                        t_rec,
                                        old(self).frontier(),
                                        old(self).bound(),
                                        base.canon_spec(),
                                        resolved_keys(
                                            base@,
                                            crate::gemtext::link_targets(
                                                crate::gemtext::spec_parse(latin1(response@)),
                                            ),
                                        ),
                                    );
                                    final(self).table() == pair.0 && final(self).frontier()
                                        == pair.1
                                })
                            } else {
                                final(self).table() == t_rec && final(self).frontier() == old(
                                    self,
                                ).frontier()
                            }
                        },
                    }
                }
            }),
    {
        proof {
            assert(old(self).frontier().is_prefix_of(old(self).frontier()));
        }
        let s = match decode_utf8_str(response) {
            Some(s) => s,
            None => {
                self.mark_malformed(key);
                return ;
            },
        };
        let header = first_line_str(s);
        let (code, meta) = match parse_header_str(header) {
            Some(p) => p,
            None => {
                self.mark_malformed(key);
                return ;
            },
        };
        let extract = code / 10 == 2 && is_text_gemini(meta.as_str());
        self.record_response(key, code, meta);
        if extract {
            let ghost t_rec = self.table();
            let ghost f_rec = self.frontier();
            let ghost bnd = old(self).bound();
            let text = latin1_string(response);
            let nodes = crate::gemtext::parse(text.as_str());
            let ghost nvv = crate::gemtext::nodes_view(nodes@);
            let refstr = base.canon();
            let mut j: usize = 0;
            proof {
                lemma_only_discoveries_refl(t_rec);
                assert(nvv.skip(0) =~= nvv);
            }
            while j < nodes.len()
                invariant
                    self.wf(),
                    self.bound() == old(self).bound(),
                    self.cadence() == old(self).cadence(),
                    self.ticks() == old(self).ticks(),
                    only_discoveries(t_rec, self.table()),
                    old(self).frontier().is_prefix_of(self.frontier()),
                    j <= nodes@.len(),
                    bnd == old(self).bound(),
                    nvv == crate::gemtext::nodes_view(nodes@),
                    refstr@ == base.canon_spec(),
                    discover_all(
                        t_rec,
                        f_rec,
                        bnd,
                        base.canon_spec(),
                        resolved_keys(base@, crate::gemtext::link_targets(nvv)),
                    ) == discover_all(
                        self.table(),
                        self.frontier(),
                        bnd,
                        base.canon_spec(),
                        resolved_keys(base@, crate::gemtext::link_targets(nvv.skip(j as int))),
                    ),
                decreases nodes@.len() - j,
            {
                let ghost t_mid = self.table();
                let ghost f_mid = self.frontier();
                proof {
                    assert(nvv[j as int] == nodes@[j as int]@);
                    assert(nvv.skip(j as int)[0] == nvv[j as int]);
                    assert(nvv.skip(j as int).drop_first() =~= nvv.skip(j as int + 1));
                }
                match &nodes[j] {
                    crate::gemtext::Node::Link { to, name: _ } => {
                        let ghost rem_t = crate::gemtext::link_targets(nvv.skip(j as int + 1));
                        proof {
                            assert(crate::gemtext::link_targets(nvv.skip(j as int)) =~= seq![to@]
                                + rem_t);
                            assert((seq![to@] + rem_t)[0] == to@);
                            assert((seq![to@] + rem_t).drop_first() =~= rem_t);
                        }
                        match resolve(Some(base), to.as_str()) {
                            Ok(a) => {
                                proof {
                                    assert(resolve_spec(Some(base@), to@) == Ok::<
                                        AddressV,
                                        AddrError,
                                    >(a@));
                                    assert(resolved_keys(base@, seq![to@] + rem_t) =~= seq![
                                        canon_of(a@),
                                    ] + resolved_keys(base@, rem_t));
                                    assert(a.canon_spec() == canon_of(a@));
                                }
                                let _ = self.discover(a, refstr.clone());
                                proof {
                                    lemma_discover_keeps_discoveries(
                                        t_rec,
                                        t_mid,
                                        self.table(),
                                        a.canon_spec(),
                                    );
                                    assert(old(self).frontier().is_prefix_of(self.frontier())) by {
                                        if self.frontier() != f_mid {
                                            assert(f_mid.is_prefix_of(f_mid.push(a.canon_spec())));
                                        }
                                    }
                                    let k = canon_of(a@);
                                    let ks = seq![k] + resolved_keys(base@, rem_t);
                                    assert(ks[0] == k);
                                    assert(ks.drop_first() =~= resolved_keys(base@, rem_t));
                                    assert(self.table() == discover_table(
                                        t_mid,
                                        bnd,
                                        k,
                                        refstr@,
                                    ));
                                    assert(self.frontier() == (if !has_keyv(t_mid, k)
                                        && admits_new(t_mid, bnd) {
                                        f_mid.push(k)
                                    } else {
                                        f_mid
                                    }));
                                    assert(discover_all(t_mid, f_mid, bnd, base.canon_spec(), ks)
                                        == discover_all(
                                        self.table(),
                                        self.frontier(),
                                        bnd,
                                        base.canon_spec(),
                                        resolved_keys(base@, rem_t),
                                    ));
                                }
                            },
                            Err(e) => {
                                proof {
                                    assert(resolve_spec(Some(base@), to@) == Err::<
                                        AddressV,
                                        AddrError,
                                    >(e));
                                    assert(resolved_keys(base@, seq![to@] + rem_t)
                                        =~= resolved_keys(base@, rem_t));
                                }
                            },
                        }
                    },
                    _ => {
                        proof {
                            assert(crate::gemtext::link_targets(nvv.skip(j as int))
                                =~= crate::gemtext::link_targets(nvv.skip(j as int + 1)));
                        }
                    },
                }
                j = j + 1;
            }
            proof {
                assert(nvv.skip(nodes@.len() as int) =~= Seq::<crate::gemtext::NodeV>::empty());
                assert(crate::gemtext::link_targets(Seq::<crate::gemtext::NodeV>::empty())
                    =~= Seq::<Seq<char>>::empty());
                assert(resolved_keys(base@, Seq::<Seq<char>>::empty()) =~= Seq::<Seq<char>>::empty());
                assert(nvv == crate::gemtext::spec_parse(latin1(response@)));
            }
        }
    }
}

/// `only_discoveries` holds from a table to itself.
proof fn lemma_only_discoveries_refl(t: Seq<EntryV>)
    ensures
        only_discoveries(t, t),
{
    assert forall|i: int| 0 <= i < t.len() implies t[i].info.referred_from.is_prefix_of(
        (#[trigger] t[i]).info.referred_from,
    ) by {
        assert(t[i].info.referred_from =~= t[i].info.referred_from.take(
            t[i].info.referred_from.len() as int,
        ));
    }
}

/// One `discover` step keeps `only_discoveries` from the recorded table.
proof fn lemma_discover_keeps_discoveries(
    t_rec: Seq<EntryV>,
    t_mid: Seq<EntryV>,
    t_new: Seq<EntryV>,
    k: Seq<char>,
)
    requires
        only_discoveries(t_rec, t_mid),
        ({
            ||| t_new == t_mid
            ||| (exists|r: Seq<char>| t_new == t_mid.push(EntryV { key: k, info: fresh_info(r) }))
            ||| (has_keyv(t_mid, k) && exists|r: Seq<char>|
                t_new == t_mid.update(
                    index_of_keyv(t_mid, k),
                    EntryV {
                        key: k,
                        info: with_referrer(t_mid[index_of_keyv(t_mid, k)].info, r),
                    },
                ))
        }),
    ensures
        only_discoveries(t_rec, t_new),
{
    if t_new == t_mid {
    } else if exists|r: Seq<char>| t_new == t_mid.push(EntryV { key: k, info: fresh_info(r) }) {
        let r = choose|r: Seq<char>| t_new == t_mid.push(EntryV { key: k, info: fresh_info(r) });
        assert(t_new == t_mid.push(EntryV { key: k, info: fresh_info(r) }));
        assert(forall|i: int| 0 <= i < t_mid.len() ==> t_new[i] == t_mid[i]);
        assert(t_new[t_mid.len() as int].info.referred_from =~= seq![r]);
    } else {
        let r = choose|r: Seq<char>|
            t_new == t_mid.update(
                index_of_keyv(t_mid, k),
                EntryV { key: k, info: with_referrer(t_mid[index_of_keyv(t_mid, k)].info, r) },
            );
        let i0 = index_of_keyv(t_mid, k);
        assert(0 <= i0 < t_mid.len() && t_mid[i0].key == k);
        assert(forall|i: int| 0 <= i < t_new.len() && i != i0 ==> t_new[i] == t_mid[i]);
        assert(t_new[i0].info.referred_from == t_mid[i0].info.referred_from.push(r));
        assert forall|q: Seq<Seq<char>>, e: Seq<char>| true implies q.is_prefix_of(q.push(e)) by {
            assert(q =~= q.push(e).take(q.len() as int));
        }
        if i0 < t_rec.len() {
            assert(t_rec[i0].info.referred_from.is_prefix_of(t_mid[i0].info.referred_from));
            assert(t_rec[i0].info.referred_from =~= t_mid[i0].info.referred_from.take(
                t_rec[i0].info.referred_from.len() as int,
            ));
            assert(t_rec[i0].info.referred_from =~= t_new[i0].info.referred_from.take(
                t_rec[i0].info.referred_from.len() as int,
            ));
        }
    }
}

/// Within a duplicate-free table, the entry found at `i` is the one
/// `index_of_keyv` names for its key.
pub proof fn lemma_key_at_index(t: Seq<EntryV>, i: int)
    requires
        keys_uniquev(t),
        0 <= i < t.len(),
    ensures
        has_keyv(t, t[i].key),
        index_of_keyv(t, t[i].key) == i,
{
    let k = t[i].key;
    assert(has_keyv(t, k)) by {
        assert(0 <= i < t.len() && t[i].key == k);
    }
    let j = index_of_keyv(t, k);
    assert(0 <= j < t.len() && t[j].key == k);
    if j != i {
        if j < i {
            assert(t[j].key != t[i].key);
        } else {
            assert(t[i].key != t[j].key);
        }
        assert(false);
    }
}

/// Discoveries of a key already in the table only append referrers to
/// its one entry: the table keeps its length, its keys, its other
/// entries, and stays duplicate-free.
pub proof fn lemma_dedup_present(
    t: Seq<EntryV>,
    bound: Option<usize>,
    k: Seq<char>,
    refs: Seq<Seq<char>>,
)
    requires
        keys_uniquev(t),
        has_keyv(t, k),
    ensures
        ({
            let t1 = discover_fold(t, bound, k, refs);
            let i = index_of_keyv(t, k);
            &&& keys_uniquev(t1)
            &&& has_keyv(t1, k)
            &&& t1.len() == t.len()
            &&& index_of_keyv(t1, k) == i
            &&& t1[i].key == k
            &&& t1[i].info.referred_from == t[i].info.referred_from + refs
            &&& t1[i].info.response_code == t[i].info.response_code
            &&& t1[i].info.timed_out == t[i].info.timed_out
            &&& t1[i].info.malformed_response == t[i].info.malformed_response
            &&& t1[i].info.metatext == t[i].info.metatext
            &&& forall|j: int| 0 <= j < t.len() && j != i ==> t1[j] == t[j]
        }),
    decreases refs.len(),
{
    let i = index_of_keyv(t, k);
    assert(0 <= i < t.len() && t[i].key == k);
    if refs.len() == 0 {
        assert(t[i].info.referred_from + refs =~= t[i].info.referred_from);
    } else {
        let t2 = discover_table(t, bound, k, refs[0]);
        assert(t2 == t.update(i, EntryV { key: k, info: with_referrer(t[i].info, refs[0]) }));
        assert(keys_uniquev(t2)) by {
            assert(forall|j: int| 0 <= j < t.len() ==> t2[j].key == t[j].key);
        }
        assert(t2[i].key == k);
        lemma_key_at_index(t2, i);
        lemma_dedup_present(t2, bound, k, refs.drop_first());
        let t1 = discover_fold(t, bound, k, refs);
        assert(t1 == discover_fold(t2, bound, k, refs.drop_first()));
        assert(t1[i].info.referred_from == t2[i].info.referred_from + refs.drop_first());
        assert(t[i].info.referred_from.push(refs[0]) + refs.drop_first() =~= t[i].info.referred_from
            + refs);
    }
}

/// Dedup law: when an address not yet in the table is discovered once
/// and then rediscovered any number of times, from whatever referrers,
/// the table gains exactly one entry for it, and that entry's referrer
/// list records exactly the discoveries, in order.
pub proof fn lemma_dedup_discoveries(
    t: Seq<EntryV>,
    bound: Option<usize>,
    k: Seq<char>,
    refs: Seq<Seq<char>>,
)
    requires
        keys_uniquev(t),
        !has_keyv(t, k),
        admits_new(t, bound),
        refs.len() > 0,
    ensures
        ({
            let t1 = discover_fold(t, bound, k, refs);
            &&& keys_uniquev(t1)
            &&& has_keyv(t1, k)
            &&& t1.len() == t.len() + 1
            &&& t1[index_of_keyv(t1, k)].info.referred_from == refs
            &&& forall|j: int| 0 <= j < t.len() ==> t1[j] == t[j]
        }),
    decreases refs.len(),
{
    let tp = t.push(EntryV { key: k, info: fresh_info(refs[0]) });
    assert(discover_table(t, bound, k, refs[0]) == tp);
    assert(keys_uniquev(tp)) by {
        assert(forall|j: int| 0 <= j < t.len() ==> tp[j].key == t[j].key);
        assert(forall|j: int| 0 <= j < t.len() ==> t[j].key != k);
    }
    assert(tp[t.len() as int].key == k);
    lemma_key_at_index(tp, t.len() as int);
    lemma_dedup_present(tp, bound, k, refs.drop_first());
    let t1 = discover_fold(t, bound, k, refs);
    assert(t1 == discover_fold(tp, bound, k, refs.drop_first()));
    let i = t.len() as int;
    assert(t1[i].info.referred_from == tp[i].info.referred_from + refs.drop_first());
    assert(seq![refs[0]] + refs.drop_first() =~= refs);
    lemma_index_stable(tp, t1, k);
}

/// Bound law: with a configured maximum of `m` entries, the entry table
/// never holds more than `m`, no matter how many links any fetch yields.
pub proof fn lemma_bounded_table(c: &Crawler, m: usize)
    requires
        c.wf(),
        c.bound() == Some(m),
    ensures
        c.table().len() <= m,
{
}

/// Resume law: every address on the frontier has an entry whose
/// response code is still 0 — an address whose entry records a response
/// is never queued again, so resuming a checkpoint refetches nothing
/// already fetched.
pub proof fn lemma_no_refetch(c: &Crawler, x: int)
    requires
        c.wf(),
        0 <= x < c.frontier().len(),
    ensures
        has_keyv(c.table(), c.frontier()[x]),
        c.table()[index_of_keyv(c.table(), c.frontier()[x])].info.response_code == 0,
        !c.table()[index_of_keyv(c.table(), c.frontier()[x])].info.timed_out,
        !c.table()[index_of_keyv(c.table(), c.frontier()[x])].info.malformed_response,
{
}

/// A key keeps its index when the table grows at the end or an entry is
/// replaced without changing any key.
pub proof fn lemma_index_stable(t0: Seq<EntryV>, t1: Seq<EntryV>, k: Seq<char>)
    requires
        keys_uniquev(t1),
        has_keyv(t0, k),
        t0.len() <= t1.len(),
        forall|i: int| 0 <= i < t0.len() ==> t1[i].key == t0[i].key,
    ensures
        has_keyv(t1, k),
        index_of_keyv(t1, k) == index_of_keyv(t0, k),
        0 <= index_of_keyv(t1, k) < t0.len(),
{
    let i0 = index_of_keyv(t0, k);
    assert(0 <= i0 < t0.len() && t0[i0].key == k);
    assert(t1[i0].key == k);
    lemma_key_at_index(t1, i0);
}

} // verus!
