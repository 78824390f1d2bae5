//! Running counters over the observed traffic: totals, per-protocol
//! counts, and per-endpoint counts, kept by the consumption loop.

use vstd::prelude::*;
use vstd::string::*;

use crate::model::{protocol_label, NetworkEvent};
use crate::detection::views_of;

verus! {

/// One more, stopping at the ceiling.
pub open spec fn bump(c: int) -> int {
    if c < u64::MAX {
        c + 1
    } else {
        c
    }
}

/// One more, stopping at the ceiling.
pub open spec fn bump_usize(c: int) -> int {
    if c < usize::MAX {
        c + 1
    } else {
        c
    }
}

/// A sum that stops at the ceiling.
pub open spec fn sat_add_usize(a: int, b: int) -> int {
    if a + b <= usize::MAX {
        a + b
    } else {
        usize::MAX as int
    }
}

/// The index of the first key equal to `k`, or -1 when absent.
pub open spec fn find_key(ks: Seq<Seq<char>>, k: Seq<char>) -> int
    decreases ks.len(),
{
    if ks.len() == 0 {
        -1
    } else if ks[0] == k {
        0
    } else {
        let r = find_key(ks.skip(1), k);
        if r < 0 {
            -1
        } else {
            r + 1
        }
    }
}

proof fn lemma_find_key_at(ks: Seq<Seq<char>>, k: Seq<char>, i: int)
    requires
        0 <= i < ks.len(),
        ks[i] == k,
        forall|j: int| 0 <= j < i ==> ks[j] != k,
    ensures
        find_key(ks, k) == i,
    decreases ks.len(),
{
    if ks[0] != k {
        let t = ks.skip(1);
        assert forall|j: int| 0 <= j < i - 1 implies t[j] != k by {
            assert(t[j] == ks[j + 1]);
        }
        assert(t[i - 1] == ks[i]);
        lemma_find_key_at(t, k, i - 1);
    }
}

proof fn lemma_find_key_absent(ks: Seq<Seq<char>>, k: Seq<char>)
    requires
        forall|j: int| 0 <= j < ks.len() ==> ks[j] != k,
    ensures
        find_key(ks, k) == -1,
    decreases ks.len(),
{
    if ks.len() > 0 {
        let t = ks.skip(1);
        assert forall|j: int| 0 <= j < t.len() implies t[j] != k by {
            assert(t[j] == ks[j + 1]);
        }
        lemma_find_key_absent(t, k);
    }
}

/// A table of occurrence counts keyed by text, the verified stand-in for
/// a hash map from strings to counters: keys are held once each, in
/// first-appearance order.
pub struct CountTable {
    pub keys: Vec<String>,
    pub counts: Vec<u64>,
}

impl CountTable {
    /// Keys unique, one counter per key.
    pub open spec fn wf(&self) -> bool {
        &&& views_of(self.keys@).no_duplicates()
        &&& self.keys@.len() == self.counts@.len()
    }

    /// The count recorded for `k`; zero when the key is absent.
    pub open spec fn count_for(&self, k: Seq<char>) -> int {
        let i = find_key(views_of(self.keys@), k);
        if i >= 0 {
            self.counts@[i] as int
        } else {
            0
        }
    }

    /// An empty table.
    pub fn new() -> (t: CountTable)
        ensures
            t.wf(),
            forall|k: Seq<char>| t.count_for(k) == 0,
            t.keys@.len() == 0,
    {
        let t = CountTable { keys: Vec::new(), counts: Vec::new() };
        proof {
            assert(views_of(t.keys@) =~= Seq::<Seq<char>>::empty());
        }
        t
    }

    /// Adds one to the count recorded for `k`, installing the key on its
    /// first appearance; every other count is untouched.
    pub fn increment(&mut self, k: &String)
        requires
            old(self).wf(),
        ensures
            final(self).wf(),
            final(self).count_for(k@) == bump(old(self).count_for(k@)),
            forall|k2: Seq<char>|
                k2 != k@ ==> final(self).count_for(k2) == old(self).count_for(k2),
    {
        let ghost kv_old = views_of(old(self).keys@);
        let n = self.keys.len();
        let mut j: usize = 0;
        let mut found = false;
        while j < n && !found
            invariant
                n == self.keys@.len(),
                j <= n,
                self == old(self),
                found ==> j < n && self.keys@[j as int]@ == k@,
                !found ==> forall|j2: int| 0 <= j2 < j ==> self.keys@[j2]@ != k@,
            decreases n - j + if found {
                0int
            } else {
                1int
            },
        {
            if self.keys[j] == *k {
                found = true;
            } else {
                j = j + 1;
            }
        }
        proof {
            assert(forall|j2: int| 0 <= j2 < kv_old.len() ==> #[trigger] kv_old[j2] == self.keys@[j2]@);
        }
        if found {
            proof {
                assert forall|j2: int| 0 <= j2 < j implies kv_old[j2] != k@ by {
                    if kv_old[j2] == k@ {
                        assert(kv_old[j2] == kv_old[j as int]);
                    }
                }
                lemma_find_key_at(kv_old, k@, j as int);
                assert forall|k2: Seq<char>| k2 != k@ implies find_key(kv_old, k2) != j as int by {
                    if find_key(kv_old, k2) == j as int {
                        lemma_find_key_match(kv_old, k2);
                    }
                }
            }
            let c = self.counts[j];
            let bumped = if c < u64::MAX {
                c + 1
            } else {
                c
            };
            self.counts[j] = bumped;
            proof {
                assert(views_of(self.keys@) =~= kv_old);
                assert(self.count_for(k@) == bump(old(self).count_for(k@)));
                assert forall|k2: Seq<char>| k2 != k@ implies self.count_for(k2) == old(
                    self,
                ).count_for(k2) by {
                    if find_key(kv_old, k2) >= 0 {
                        lemma_find_key_match(kv_old, k2);
                    }
                }
            }
        } else {
            proof {
                lemma_find_key_absent(kv_old, k@);
            }
            self.keys.push(k.clone());
            self.counts.push(1);
            proof {
                let kv_new = views_of(self.keys@);
                assert(kv_new.len() == kv_old.len() + 1);
                assert(forall|j2: int| 0 <= j2 < kv_old.len() ==> #[trigger] kv_new[j2] == kv_old[j2]);
                assert(kv_new[kv_old.len() as int] == k@);
                assert forall|i1: int, i2: int|
                    0 <= i1 < kv_new.len() && 0 <= i2 < kv_new.len() && i1 != i2 implies kv_new[i1]
                    != kv_new[i2] by {
                    if i1 < kv_old.len() && i2 < kv_old.len() {
                    } else if i1 < kv_old.len() {
                        assert(kv_new[i1] == kv_old[i1] && kv_new[i2] == k@);
                    } else if i2 < kv_old.len() {
                        assert(kv_new[i2] == kv_old[i2] && kv_new[i1] == k@);
                    }
                }
                lemma_find_key_at(kv_new, k@, kv_old.len() as int);
                assert forall|k2: Seq<char>| k2 != k@ implies self.count_for(k2) == old(
                    self,
                ).count_for(k2) by {
                    if find_key(kv_old, k2) >= 0 {
                        lemma_find_key_match(kv_old, k2);
                        let i = find_key(kv_old, k2);
                        assert forall|j2: int| 0 <= j2 < i implies kv_new[j2] != k2 by {
                            lemma_find_key_first(kv_old, k2, j2);
                        }
                        lemma_find_key_at(kv_new, k2, i);
                        assert(self.counts@[i] == old(self).counts@[i]);
                    } else {
                        assert forall|j2: int| 0 <= j2 < kv_new.len() implies kv_new[j2] != k2 by {
                            if j2 < kv_old.len() {
                                lemma_find_key_first(kv_old, k2, j2);
                            }
                        }
                        lemma_find_key_absent(kv_new, k2);
                    }
                }
            }
        }
    }
}

/// A found key really stands at the reported index.
proof fn lemma_find_key_match(ks: Seq<Seq<char>>, k: Seq<char>)
    requires
        find_key(ks, k) >= 0,
    ensures
        0 <= find_key(ks, k) < ks.len(),
        ks[find_key(ks, k)] == k,
    decreases ks.len(),
{
    if ks.len() > 0 && ks[0] != k {
        let t = ks.skip(1);
        lemma_find_key_match(t, k);
        assert(t[find_key(t, k)] == ks[find_key(t, k) + 1]);
    }
}

/// Nothing before the reported index matches.
proof fn lemma_find_key_first(ks: Seq<Seq<char>>, k: Seq<char>, j: int)
    requires
        0 <= j < ks.len(),
        find_key(ks, k) < 0 || j < find_key(ks, k),
    ensures
        ks[j] != k,
    decreases ks.len(),
{
    if j > 0 {
        let t = ks.skip(1);
        lemma_find_key_first(t, k, j - 1);
        assert(t[j - 1] == ks[j]);
    }
}

/// Running totals over the observed events: packets, bytes, and counts
/// per protocol, source, and destination.
pub struct NetworkStats {
    pub total_packets: usize,
    pub total_bytes: usize,
    pub protocol_counts: CountTable,
    pub unique_sources: CountTable,
    pub unique_destinations: CountTable,
}

impl NetworkStats {
    /// All three tables keep their invariant.
    pub open spec fn wf(&self) -> bool {
        self.protocol_counts.wf() && self.unique_sources.wf() && self.unique_destinations.wf()
    }

    /// Fresh, empty statistics.
    pub fn new() -> (s: NetworkStats)
        ensures
            s.wf(),
            s.total_packets == 0,
            s.total_bytes == 0,
            forall|k: Seq<char>| s.protocol_counts.count_for(k) == 0,
            forall|k: Seq<char>| s.unique_sources.count_for(k) == 0,
            forall|k: Seq<char>| s.unique_destinations.count_for(k) == 0,
    {
        NetworkStats {
            total_packets: 0,
            total_bytes: 0,
            protocol_counts: CountTable::new(),
            unique_sources: CountTable::new(),
            unique_destinations: CountTable::new(),
        }
    }

    /// Folds one event into the totals: one more packet, its bytes, and
    /// one more sighting of its protocol and of each endpoint. Counters
    /// saturate at their ceiling rather than wrap.
    pub fn update(&mut self, event: &NetworkEvent)
        requires
            old(self).wf(),
        ensures
            final(self).wf(),
            final(self).total_packets == bump_usize(old(self).total_packets as int),
            final(self).total_bytes == sat_add_usize(
                old(self).total_bytes as int,
                event.payload_size as int,
            ),
            final(self).protocol_counts.count_for(protocol_label(event.protocol)) == bump(
                old(self).protocol_counts.count_for(protocol_label(event.protocol)),
            ),
            forall|k2: Seq<char>|
                k2 != protocol_label(event.protocol) ==> final(self).protocol_counts.count_for(k2)
                    == old(self).protocol_counts.count_for(k2),
            final(self).unique_sources.count_for(event.source@) == bump(
                old(self).unique_sources.count_for(event.source@),
            ),
            forall|k2: Seq<char>|
                k2 != event.source@ ==> final(self).unique_sources.count_for(k2) == old(
                    self,
                ).unique_sources.count_for(k2),
            final(self).unique_destinations.count_for(event.destination@) == bump(
                old(self).unique_destinations.count_for(event.destination@),
            ),
            forall|k2: Seq<char>|
                k2 != event.destination@ ==> final(self).unique_destinations.count_for(k2) == old(
                    self,
                ).unique_destinations.count_for(k2),
    {
        if self.total_packets < usize::MAX {
            self.total_packets = self.total_packets + 1;
        }
        if event.payload_size <= usize::MAX - self.total_bytes {
            self.total_bytes = self.total_bytes + event.payload_size;
        } else {
            self.total_bytes = usize::MAX;
        }
        let label = event.protocol.label();
        self.protocol_counts.increment(&label);
        self.unique_sources.increment(&event.source);
        self.unique_destinations.increment(&event.destination);
    }
}

} // verus!
