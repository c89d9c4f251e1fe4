use vstd::prelude::*;

use crate::command::{apply, replay, Command, CommandPos, Record};
use crate::error::KvsError;

verus! {

/// Compaction runs once more than this many bytes of the logs are known dead.
pub const COMPACTION_THRESHOLD: u64 = 1048576;

/// A record of the logs together with the place where it was written.
pub struct LogEntry {
    pub at: CommandPos,
    pub rec: Record,
}

/// The records of a log, without their places.
pub open spec fn records(log: Seq<LogEntry>) -> Seq<Record> {
    log.map_values(|e: LogEntry| e.rec)
}

/// The key that a record is about.
pub open spec fn key_of(r: Record) -> Seq<char> {
    match r {
        Record::Put(k, _) => k,
        Record::Remove(k) => k,
    }
}

/// The last record of the log that is about `k` is `Put(k, v)`, and it lies at `at`.
pub open spec fn latest_put(log: Seq<LogEntry>, at: CommandPos, k: Seq<char>, v: Seq<char>) -> bool {
    exists|j: int|
        0 <= j < log.len() && log[j] == (LogEntry { at, rec: Record::Put(k, v) }) && forall|l: int|
            j < l < log.len() ==> key_of(#[trigger] log[l].rec) != k
}

pub open spec fn strictly_ascending(s: Seq<u64>) -> bool {
    forall|i: int, j: int| 0 <= i < j < s.len() ==> s[i] < s[j]
}

proof fn lemma_replay_push(log: Seq<LogEntry>, e: LogEntry)
    ensures
        replay(records(log.push(e))) == apply(replay(records(log)), e.rec),
{
    let s = records(log.push(e));
    assert(s.drop_last() =~= records(log));
}

proof fn lemma_latest_put_push(log: Seq<LogEntry>, e: LogEntry, at: CommandPos, k: Seq<char>, v: Seq<char>)
    requires
        latest_put(log, at, k, v),
        key_of(e.rec) != k,
    ensures
        latest_put(log.push(e), at, k, v),
{
    let j = choose|j: int|
        0 <= j < log.len() && log[j] == (LogEntry { at, rec: Record::Put(k, v) }) && forall|l: int|
            j < l < log.len() ==> key_of(#[trigger] log[l].rec) != k;
    let t = log.push(e);
    assert(t[j] == log[j]);
    assert forall|l: int| j < l < t.len() implies key_of(#[trigger] t[l].rec) != k by {
        if l < log.len() {
            assert(t[l] == log[l]);
        }
    }
}

/// `a + b`, held at the largest `u64`.
pub open spec fn sat_add(a: u64, b: u64) -> u64 {
    if a + b > u64::MAX {
        u64::MAX
    } else {
        (a + b) as u64
    }
}

/// The counter after adding the length of a superseded entry, if there is one.
pub open spec fn plus(count: u64, dead: Option<u64>) -> u64 {
    match dead {
        Some(l) => sat_add(count, l),
        None => count,
    }
}

/// The generation that follows the ascending `gens`: one past the last, or 1.
pub open spec fn next_gen(gens: Seq<u64>) -> Option<u64> {
    if gens.len() == 0 {
        Some(1)
    } else if gens.last() == u64::MAX {
        None
    } else {
        Some((gens.last() + 1) as u64)
    }
}

/// The total length of the ranges `s`.
pub open spec fn total_len(s: Seq<CommandPos>) -> int
    decreases s.len(),
{
    if s.len() == 0 {
        0
    } else {
        total_len(s.drop_last()) + s.last().len
    }
}

proof fn lemma_total_len_prefix(s: Seq<CommandPos>, n: int)
    requires
        0 <= n <= s.len(),
    ensures
        total_len(s.take(n)) <= total_len(s),
    decreases s.len(),
{
    if n < s.len() {
        assert(s.drop_last().take(n) =~= s.take(n));
        lemma_total_len_prefix(s.drop_last(), n);
    } else {
        assert(s.take(n) =~= s);
    }
}

proof fn lemma_total_len_eq(a: Seq<CommandPos>, b: Seq<CommandPos>)
    requires
        a.len() == b.len(),
        forall|i: int| 0 <= i < a.len() ==> #[trigger] a[i].len == b[i].len,
    ensures
        total_len(a) == total_len(b),
    decreases a.len(),
{
    if a.len() > 0 {
        lemma_total_len_eq(a.drop_last(), b.drop_last());
    }
}

/// A log of `Put` records whose values are those of `m` replays to `m`, cut
/// down to the keys that it names.
proof fn lemma_replay_puts(s: Seq<Record>, m: Map<Seq<char>, Seq<char>>)
    requires
        forall|i: int|
            0 <= i < s.len() ==> (#[trigger] s[i]) is Put && m.contains_key(s[i]->Put_0) && s[i]->Put_1
                == m[s[i]->Put_0],
    ensures
        replay(s) == m.restrict(
            Set::new(|k: Seq<char>| exists|i: int| 0 <= i < s.len() && s[i]->Put_0 == k),
        ),
    decreases s.len(),
{
    let keys = Set::new(|k: Seq<char>| exists|i: int| 0 <= i < s.len() && s[i]->Put_0 == k);
    if s.len() == 0 {
        assert(m.restrict(keys) =~= Map::empty());
    } else {
        let t = s.drop_last();
        assert forall|i: int| 0 <= i < t.len() implies (#[trigger] t[i]) is Put && m.contains_key(
            t[i]->Put_0,
        ) && t[i]->Put_1 == m[t[i]->Put_0] by {
            assert(t[i] == s[i]);
        }
        lemma_replay_puts(t, m);
        let tkeys = Set::new(|k: Seq<char>| exists|i: int| 0 <= i < t.len() && t[i]->Put_0 == k);
        let last = s.last();
        assert forall|k: Seq<char>| keys.contains(k) <==> (tkeys.contains(k) || k == last->Put_0) by {
            if keys.contains(k) {
                let i = choose|i: int| 0 <= i < s.len() && s[i]->Put_0 == k;
                if i < t.len() {
                    assert(t[i] == s[i]);
                }
            }
            if tkeys.contains(k) {
                let i = choose|i: int| 0 <= i < t.len() && t[i]->Put_0 == k;
                assert(t[i] == s[i]);
            }
            if k == last->Put_0 {
                assert(s[s.len() - 1]->Put_0 == k);
            }
        }
        assert(replay(s) =~= m.restrict(keys));
    }
}

/// The work that a compaction hands to the caller: copy each range of
/// `copies`, in order, to the end of generation `compaction_gen`; open
/// `active_gen` for appending; drop every generation of `stale`.
pub struct Compaction {
    pub compaction_gen: u64,
    pub active_gen: u64,
    pub copies: Vec<CommandPos>,
    pub stale: Vec<u64>,
}

/// The engine of the store: the index, the generations and the compaction
/// counter. The files themselves are written and read by the caller, at the
/// places that this engine hands out and records.
pub struct KvStore {
    current_gen: u64,
    gens: Vec<u64>,
    index: Vec<(String, CommandPos)>,
    canbe_compacted: u64,
    threshold: u64,
    log: Ghost<Seq<LogEntry>>,
}

impl View for KvStore {
    type V = Map<Seq<char>, Seq<char>>;

    /// What the store holds: the effect of every record of its live logs, in order.
    closed spec fn view(&self) -> Map<Seq<char>, Seq<char>> {
        replay(records(self.log@))
    }
}

impl KvStore {
    /// The records of the live generations, in the order in which they take effect.
    pub closed spec fn log(&self) -> Seq<LogEntry> {
        self.log@
    }

    /// The live generations, ascending; the last one is the active one.
    pub closed spec fn generations(&self) -> Seq<u64> {
        self.gens@
    }

    pub closed spec fn active_gen(&self) -> u64 {
        self.current_gen
    }

    pub closed spec fn compactable(&self) -> u64 {
        self.canbe_compacted
    }

    pub closed spec fn limit(&self) -> u64 {
        self.threshold
    }

    /// The index, in its own order.
    pub closed spec fn entries(&self) -> Seq<(Seq<char>, CommandPos)> {
        self.index@.map_values(|e: (String, CommandPos)| (e.0@, e.1))
    }

    /// The places of the index's entries, in its order.
    pub closed spec fn positions(&self) -> Seq<CommandPos> {
        self.index@.map_values(|e: (String, CommandPos)| e.1)
    }

    /// Where the index places the latest `Put` of `k`.
    pub closed spec fn entry(&self, k: Seq<char>) -> CommandPos {
        self.index@[self.slot(k)].1
    }

    closed spec fn slot(&self, k: Seq<char>) -> int {
        choose|i: int| 0 <= i < self.index@.len() && self.index@[i].0@ == k
    }

    pub closed spec fn wf(&self) -> bool {
        &&& forall|i: int, j: int|
            0 <= i < j < self.index@.len() ==> self.index@[i].0@ != self.index@[j].0@
        &&& forall|k: Seq<char>|
            self@.contains_key(k) <==> exists|i: int|
                0 <= i < self.index@.len() && self.index@[i].0@ == k
        &&& forall|i: int|
            0 <= i < self.index@.len() ==> latest_put(
                self.log@,
                #[trigger] self.index@[i].1,
                self.index@[i].0@,
                self@[self.index@[i].0@],
            )
        &&& forall|i: int|
            0 <= i < self.index@.len() ==> self.gens@.contains(#[trigger] self.index@[i].1.gen)
        &&& strictly_ascending(self.gens@)
        &&& self.gens@.len() > 0 ==> self.gens@.last() == self.current_gen
    }

    /// The parts of `wf` that speak of the index and the log carry over to a
    /// store with the same index and log.
    proof fn lemma_same_index(&self, other: &KvStore)
        requires
            self.wf(),
            other.index@ == self.index@,
            other.log@ == self.log@,
        ensures
            forall|k: Seq<char>|
                other@.contains_key(k) <==> exists|i: int|
                    0 <= i < other.index@.len() && other.index@[i].0@ == k,
    {
        assert(other@ == self@);
        assert forall|k: Seq<char>|
            other@.contains_key(k) <==> exists|i: int|
                0 <= i < other.index@.len() && other.index@[i].0@ == k by {
            if self@.contains_key(k) {
                let i = choose|i: int| 0 <= i < self.index@.len() && self.index@[i].0@ == k;
                assert(other.index@[i].0@ == k);
            }
        }
    }

    proof fn lemma_slot(&self, i: int)
        requires
            self.wf(),
            0 <= i < self.index@.len(),
        ensures
            self.slot(self.index@[i].0@) == i,
            self.entry(self.index@[i].0@) == self.index@[i].1,
    {
        let k = self.index@[i].0@;
        let s = self.slot(k);
        assert(0 <= s < self.index@.len() && self.index@[s].0@ == k);
    }

    /// An empty store with no generation yet, compacting above `threshold` dead bytes.
    pub fn with_threshold(threshold: u64) -> (r: KvStore)
        ensures
            r.wf(),
            r@ == Map::<Seq<char>, Seq<char>>::empty(),
            r.log() == Seq::<LogEntry>::empty(),
            r.generations() == Seq::<u64>::empty(),
            r.compactable() == 0,
            r.limit() == threshold,
    {
        let r = KvStore {
            current_gen: 0,
            gens: Vec::new(),
            index: Vec::new(),
            canbe_compacted: 0,
            threshold,
            log: Ghost(Seq::empty()),
        };
        assert(records(r.log@) =~= Seq::<Record>::empty());
        r
    }

    /// An empty store with no generation yet and the default threshold.
    pub fn new() -> (r: KvStore)
        ensures
            r.wf(),
            r@ == Map::<Seq<char>, Seq<char>>::empty(),
            r.log() == Seq::<LogEntry>::empty(),
            r.generations() == Seq::<u64>::empty(),
            r.compactable() == 0,
            r.limit() == COMPACTION_THRESHOLD,
    {
        KvStore::with_threshold(COMPACTION_THRESHOLD)
    }

    /// The bytes of the logs known to be dead.
    pub fn compactable_bytes(&self) -> (r: u64)
        ensures
            r == self.compactable(),
    {
        self.canbe_compacted
    }

    /// The generation that takes new records.
    pub fn current_gen(&self) -> (r: u64)
        ensures
            r == self.active_gen(),
    {
        self.current_gen
    }

    /// The live generations, ascending.
    pub fn generation_list(&self) -> (r: Vec<u64>)
        ensures
            r@ == self.generations(),
    {
        let mut out: Vec<u64> = Vec::new();
        let mut i: usize = 0;
        while i < self.gens.len()
            invariant
                i <= self.gens@.len(),
                out@ == self.gens@.take(i as int),
            decreases self.gens@.len() - i,
        {
            out.push(self.gens[i]);
            i += 1;
            assert(out@ =~= self.gens@.take(i as int));
        }
        assert(self.gens@.take(i as int) =~= self.gens@);
        out
    }

    fn find(&self, key: &String) -> (r: Option<usize>)
        requires
            self.wf(),
        ensures
            match r {
                Some(i) => i < self.index@.len() && self.index@[i as int].0@ == key@,
                None => forall|i: int| 0 <= i < self.index@.len() ==> self.index@[i].0@ != key@,
            },
    {
        let mut i: usize = 0;
        while i < self.index.len()
            invariant
                i <= self.index@.len(),
                forall|j: int| 0 <= j < i ==> self.index@[j].0@ != key@,
            decreases self.index@.len() - i,
        {
            if self.index[i].0 == *key {
                return Some(i);
            }
            i += 1;
        }
        None
    }

    /// Whether the store holds a value for `key`.
    pub fn contains_key(&self, key: &String) -> (r: bool)
        requires
            self.wf(),
        ensures
            r == self@.contains_key(key@),
    {
        self.find(key).is_some()
    }

    /// Where the latest `Put` of `key` lies, if the store holds it.
    pub fn get(&self, key: &String) -> (r: Option<CommandPos>)
        requires
            self.wf(),
        ensures
            r is Some <==> self@.contains_key(key@),
            r matches Some(at) ==> at == self.entry(key@) && latest_put(
                self.log(),
                at,
                key@,
                self@[key@],
            ),
    {
        match self.find(key) {
            Some(i) => {
                proof {
                    self.lemma_slot(i as int);
                }
                Some(self.index[i].1)
            },
            None => None,
        }
    }
    /// Points the index at `at` for `key`, whose value there is `value`.
    fn install(&mut self, key: String, Ghost(value): Ghost<Seq<char>>, at: CommandPos) -> (old_len:
        Option<u64>)
        requires
            old(self).wf(),
            old(self).gens@.contains(at.gen),
        ensures
            final(self).wf(),
            final(self).log@ == old(self).log@.push(LogEntry { at, rec: Record::Put(key@, value) }),
            final(self).gens@ == old(self).gens@,
            final(self).current_gen == old(self).current_gen,
            final(self).canbe_compacted == old(self).canbe_compacted,
            final(self).threshold == old(self).threshold,
            old_len == (if old(self)@.contains_key(key@) {
                Some(old(self).entry(key@).len)
            } else {
                None
            }),
            final(self).entry(key@) == at,
            forall|k2: Seq<char>|
                k2 != key@ && old(self)@.contains_key(k2) ==> #[trigger] final(self).entry(k2)
                    == old(self).entry(k2),
    {
        let ghost k = key@;
        let ghost e = LogEntry { at, rec: Record::Put(k, value) };
        let ghost oldv = self@;
        let found = self.find(&key);
        proof {
            lemma_replay_push(self.log@, e);
        }
        let old_len = match found {
            Some(i) => {
                proof {
                    self.lemma_slot(i as int);
                }
                let l = self.index[i].1.len;
                self.index.set(i, (key, at));
                Some(l)
            },
            None => {
                self.index.push((key, at));
                None
            },
        };
        let ghost oldlog = self.log@;
        self.log = Ghost(self.log@.push(e));
        assert(self@ == oldv.insert(k, value));
        assert forall|i: int| 0 <= i < self.index@.len() implies latest_put(
            self.log@,
            #[trigger] self.index@[i].1,
            self.index@[i].0@,
            self@[self.index@[i].0@],
        ) by {
            if self.index@[i].0@ == k {
                assert(self.log@[oldlog.len() as int] == e);
            } else {
                lemma_latest_put_push(oldlog, e, self.index@[i].1, self.index@[i].0@, oldv[self.index@[i].0@]);
            }
        }
        assert forall|k2: Seq<char>| self@.contains_key(k2) <==> exists|i: int|
            0 <= i < self.index@.len() && self.index@[i].0@ == k2 by {
            if k2 == k {
                if let Some(i) = found {
                    assert(self.index@[i as int].0@ == k2);
                } else {
                    assert(self.index@[self.index@.len() - 1].0@ == k2);
                }
            } else if oldv.contains_key(k2) {
                let i = choose|i: int| 0 <= i < old(self).index@.len() && old(self).index@[i].0@ == k2;
                assert(self.index@[i].0@ == k2);
            }
        }
        proof {
            if let Some(i) = found {
                self.lemma_slot(i as int);
            } else {
                self.lemma_slot(self.index@.len() - 1);
            }
            assert forall|k2: Seq<char>|
                k2 != k && oldv.contains_key(k2) implies #[trigger] self.entry(k2) == old(self).entry(k2) by {
                let i = choose|i: int| 0 <= i < old(self).index@.len() && old(self).index@[i].0@ == k2;
                old(self).lemma_slot(i);
                assert(self.index@[i] == old(self).index@[i]);
                self.lemma_slot(i);
            }
        }
        old_len
    }

    /// Drops `key` from the index; the log gains `Remove(key)` at `at`.
    fn delete(&mut self, key: &String, at: CommandPos) -> (old_len: Option<u64>)
        requires
            old(self).wf(),
        ensures
            final(self).wf(),
            final(self).log@ == old(self).log@.push(LogEntry { at, rec: Record::Remove(key@) }),
            final(self).gens@ == old(self).gens@,
            final(self).current_gen == old(self).current_gen,
            final(self).canbe_compacted == old(self).canbe_compacted,
            final(self).threshold == old(self).threshold,
            old_len == (if old(self)@.contains_key(key@) {
                Some(old(self).entry(key@).len)
            } else {
                None
            }),
            forall|k2: Seq<char>|
                k2 != key@ && old(self)@.contains_key(k2) ==> #[trigger] final(self).entry(k2)
                    == old(self).entry(k2),
    {
        let ghost k = key@;
        let ghost e = LogEntry { at, rec: Record::Remove(k) };
        let ghost oldv = self@;
        let found = self.find(key);
        proof {
            lemma_replay_push(self.log@, e);
        }
        let old_len = match found {
            Some(i) => {
                proof {
                    self.lemma_slot(i as int);
                }
                let (_, p) = self.index.remove(i);
                Some(p.len)
            },
            None => None,
        };
        let ghost oldlog = self.log@;
        self.log = Ghost(self.log@.push(e));
        assert(self@ == oldv.remove(k));
        assert forall|i: int| 0 <= i < self.index@.len() implies latest_put(
            self.log@,
            #[trigger] self.index@[i].1,
            self.index@[i].0@,
            self@[self.index@[i].0@],
        ) by {
            let oi = if found is Some && i >= found.unwrap() { i + 1 } else { i };
            assert(self.index@[i] == old(self).index@[oi]);
            lemma_latest_put_push(oldlog, e, self.index@[i].1, self.index@[i].0@, oldv[self.index@[i].0@]);
        }
        assert forall|k2: Seq<char>| self@.contains_key(k2) <==> exists|i: int|
            0 <= i < self.index@.len() && self.index@[i].0@ == k2 by {
            if k2 != k && oldv.contains_key(k2) {
                let oi = choose|i: int| 0 <= i < old(self).index@.len() && old(self).index@[i].0@ == k2;
                let i = if found is Some && oi > found.unwrap() { oi - 1 } else { oi };
                assert(self.index@[i].0@ == k2);
            }
            if exists|i: int| 0 <= i < self.index@.len() && self.index@[i].0@ == k2 {
                let i = choose|i: int| 0 <= i < self.index@.len() && self.index@[i].0@ == k2;
                let oi = if found is Some && i >= found.unwrap() { i + 1 } else { i };
                assert(old(self).index@[oi].0@ == k2);
            }
        }
        assert forall|i: int| 0 <= i < self.index@.len() implies self.gens@.contains(
            #[trigger] self.index@[i].1.gen,
        ) by {
            let oi = if found is Some && i >= found.unwrap() { i + 1 } else { i };
            assert(self.index@[i] == old(self).index@[oi]);
        }
        assert forall|k2: Seq<char>|
            k2 != k && oldv.contains_key(k2) implies #[trigger] self.entry(k2) == old(self).entry(k2) by {
            let oi = choose|i: int| 0 <= i < old(self).index@.len() && old(self).index@[i].0@ == k2;
            old(self).lemma_slot(oi);
            let i = if found is Some && oi > found.unwrap() { oi - 1 } else { oi };
            assert(self.index@[i] == old(self).index@[oi]);
            self.lemma_slot(i);
        }
        old_len
    }
    /// The length of the entry that a new record for `k` makes dead, if any.
    pub open spec fn superseded(&self, k: Seq<char>) -> Option<u64> {
        if self@.contains_key(k) {
            Some(self.entry(k).len)
        } else {
            None
        }
    }

    fn add_dead(&mut self, l: u64)
        requires
            old(self).wf(),
        ensures
            final(self).wf(),
            final(self).canbe_compacted == sat_add(old(self).canbe_compacted, l),
            final(self).current_gen == old(self).current_gen,
            final(self).gens == old(self).gens,
            final(self).index == old(self).index,
            final(self).threshold == old(self).threshold,
            final(self).log == old(self).log,
            final(self)@ == old(self)@,
            forall|k: Seq<char>| #[trigger] final(self).entry(k) == old(self).entry(k),
    {
        self.canbe_compacted = self.canbe_compacted.saturating_add(l);
        proof {
            old(self).lemma_same_index(self);
        }
    }

    /// Registers `gen`, found on disk, as the generation that recovery reads next.
    pub fn open_generation(&mut self, gen: u64)
        requires
            old(self).wf(),
            old(self).generations().len() == 0 || gen > old(self).active_gen(),
        ensures
            final(self).wf(),
            final(self)@ == old(self)@,
            final(self).log() == old(self).log(),
            final(self).generations() == old(self).generations().push(gen),
            final(self).active_gen() == gen,
            final(self).compactable() == old(self).compactable(),
            final(self).limit() == old(self).limit(),
    {
        self.gens.push(gen);
        self.current_gen = gen;
        proof {
            old(self).lemma_same_index(self);
        }
        assert forall|i: int| 0 <= i < self.index@.len() implies self.gens@.contains(
            #[trigger] self.index@[i].1.gen,
        ) by {
            assert(old(self).gens@.contains(old(self).index@[i].1.gen));
            let j = choose|j: int| 0 <= j < old(self).gens@.len() && old(self).gens@[j] == self.index@[i].1.gen;
            assert(self.gens@[j] == old(self).gens@[j]);
        }
    }

    /// Opens a fresh active generation after every one there is: one past the
    /// last, or 1 when there is none. `None` when the last is the largest `u64`.
    pub fn start_active(&mut self) -> (r: Option<u64>)
        requires
            old(self).wf(),
        ensures
            final(self).wf(),
            final(self)@ == old(self)@,
            final(self).log() == old(self).log(),
            final(self).compactable() == old(self).compactable(),
            final(self).limit() == old(self).limit(),
            r == next_gen(old(self).generations()),
            r matches Some(g) ==> final(self).generations() == old(self).generations().push(g)
                && final(self).active_gen() == g,
            r is None ==> final(self).generations() == old(self).generations(),
    {
        let gen = if self.gens.len() == 0 {
            1
        } else if self.current_gen == u64::MAX {
            return None;
        } else {
            self.current_gen + 1
        };
        self.open_generation(gen);
        Some(gen)
    }

    /// Recovery: takes in the record `cmd`, read at `[start, end)` of the
    /// generation opened last.
    pub fn apply_record(&mut self, cmd: Command, start: u64, end: u64)
        requires
            old(self).wf(),
            old(self).generations().len() > 0,
            start <= end,
        ensures
            final(self).wf(),
            final(self)@ == apply(old(self)@, cmd@),
            final(self).log() == old(self).log().push(
                LogEntry {
                    at: CommandPos { gen: old(self).active_gen(), pos: start, len: (end - start) as u64 },
                    rec: cmd@,
                },
            ),
            final(self).generations() == old(self).generations(),
            final(self).active_gen() == old(self).active_gen(),
            final(self).limit() == old(self).limit(),
            final(self).compactable() == (match cmd@ {
                Record::Put(k, _) => plus(old(self).compactable(), old(self).superseded(k)),
                Record::Remove(k) => sat_add(
                    plus(old(self).compactable(), old(self).superseded(k)),
                    (end - start) as u64,
                ),
            }),
            cmd@ matches Record::Put(k, _) ==> final(self).entry(k) == (CommandPos {
                gen: old(self).active_gen(),
                pos: start,
                len: (end - start) as u64,
            }),
            forall|k: Seq<char>|
                k != key_of(cmd@) && old(self)@.contains_key(k) ==> #[trigger] final(self).entry(k)
                    == old(self).entry(k),
    {
        let at = CommandPos { gen: self.current_gen, pos: start, len: end - start };
        proof {
            lemma_replay_push(self.log@, LogEntry { at, rec: cmd@ });
            assert(self.gens@[self.gens@.len() - 1] == self.current_gen);
        }
        match cmd {
            Command::Put { key, value } => {
                let old_len = self.install(key, Ghost(value@), at);
                if let Some(l) = old_len {
                    self.add_dead(l);
                }
            },
            Command::Remove { key } => {
                let old_len = self.delete(&key, at);
                if let Some(l) = old_len {
                    self.add_dead(l);
                }
                self.add_dead(end - start);
            },
        }
    }

    /// Records `Put(key, value)`, written at `[start, end)` of the active
    /// generation. Says whether compaction is now due.
    pub fn set(&mut self, key: String, value: &String, start: u64, end: u64) -> (due: bool)
        requires
            old(self).wf(),
            old(self).generations().len() > 0,
            start <= end,
        ensures
            final(self).wf(),
            final(self)@ == old(self)@.insert(key@, value@),
            final(self).log() == old(self).log().push(
                LogEntry {
                    at: CommandPos { gen: old(self).active_gen(), pos: start, len: (end - start) as u64 },
                    rec: Record::Put(key@, value@),
                },
            ),
            final(self).generations() == old(self).generations(),
            final(self).active_gen() == old(self).active_gen(),
            final(self).limit() == old(self).limit(),
            final(self).compactable() == plus(old(self).compactable(), old(self).superseded(key@)),
            due == (final(self).compactable() > final(self).limit()),
            final(self).entry(key@) == (CommandPos {
                gen: old(self).active_gen(),
                pos: start,
                len: (end - start) as u64,
            }),
            forall|k: Seq<char>|
                k != key@ && old(self)@.contains_key(k) ==> #[trigger] final(self).entry(k)
                    == old(self).entry(k),
    {
        let at = CommandPos { gen: self.current_gen, pos: start, len: end - start };
        proof {
            lemma_replay_push(self.log@, LogEntry { at, rec: Record::Put(key@, value@) });
            assert(self.gens@[self.gens@.len() - 1] == self.current_gen);
        }
        let old_len = self.install(key, Ghost(value@), at);
        if let Some(l) = old_len {
            self.add_dead(l);
        }
        self.canbe_compacted > self.threshold
    }

    /// Records `Remove(key)`, written at `[start, end)` of the active
    /// generation. Fails with `KeyNotFound`, and changes nothing, where the
    /// store holds no value for `key`.
    pub fn remove(&mut self, key: &String, start: u64, end: u64) -> (r: Result<(), KvsError>)
        requires
            old(self).wf(),
            old(self).generations().len() > 0,
            start <= end,
        ensures
            final(self).wf(),
            r is Err <==> !old(self)@.contains_key(key@),
            r is Err ==> r == Err::<(), KvsError>(KvsError::KeyNotFound) && *final(self) == *old(self),
            r is Ok ==> final(self)@ == old(self)@.remove(key@) && final(self).log() == old(
                self,
            ).log().push(
                LogEntry {
                    at: CommandPos { gen: old(self).active_gen(), pos: start, len: (end - start) as u64 },
                    rec: Record::Remove(key@),
                },
            ) && final(self).compactable() == sat_add(
                sat_add(old(self).compactable(), old(self).entry(key@).len),
                (end - start) as u64,
            ),
            final(self).generations() == old(self).generations(),
            final(self).active_gen() == old(self).active_gen(),
            final(self).limit() == old(self).limit(),
            forall|k: Seq<char>|
                k != key@ && old(self)@.contains_key(k) ==> #[trigger] final(self).entry(k)
                    == old(self).entry(k),
    {
        if !self.contains_key(key) {
            return Err(KvsError::KeyNotFound);
        }
        let at = CommandPos { gen: self.current_gen, pos: start, len: end - start };
        proof {
            lemma_replay_push(self.log@, LogEntry { at, rec: Record::Remove(key@) });
        }
        let old_len = self.delete(key, at);
        if let Some(l) = old_len {
            self.add_dead(l);
        }
        self.add_dead(end - start);
        Ok(())
    }
    /// Compaction: every live entry moves, in index order and back to back, to a
    /// fresh generation one past the active one; a second fresh generation
    /// becomes the active one. The plan says which byte ranges to copy and which
    /// generations to drop. `None`, with nothing changed, where the generation
    /// numbers or the compacted file's length would not fit in a `u64`.
    pub fn compact(&mut self) -> (r: Option<Compaction>)
        requires
            old(self).wf(),
            old(self).generations().len() > 0,
        ensures
            final(self).wf(),
            final(self)@ == old(self)@,
            final(self).limit() == old(self).limit(),
            r is None <==> (old(self).active_gen() > u64::MAX - 2 || total_len(
                old(self).positions(),
            ) > u64::MAX),
            r is None ==> *final(self) == *old(self),
            r matches Some(c) ==> {
                &&& c.compaction_gen == old(self).active_gen() + 1
                &&& c.active_gen == old(self).active_gen() + 2
                &&& c.copies@ == old(self).positions()
                &&& c.stale@ == old(self).generations()
                &&& final(self).generations() == seq![c.compaction_gen, c.active_gen]
                &&& final(self).active_gen() == c.active_gen
                &&& final(self).compactable() == 0
                &&& final(self).entries().len() == old(self).entries().len()
                &&& forall|i: int|
                    0 <= i < final(self).entries().len() ==> {
                        &&& (#[trigger] final(self).entries()[i]).0 == old(self).entries()[i].0
                        &&& final(self).entries()[i].1.gen == c.compaction_gen
                        &&& final(self).entries()[i].1.pos == total_len(old(self).positions().take(i))
                        &&& final(self).entries()[i].1.len == old(self).entries()[i].1.len
                    }
                &&& forall|i: int|
                    0 <= i < final(self).log().len() ==> #[trigger] final(self).log()[i] == (
                    LogEntry {
                        at: final(self).entries()[i].1,
                        rec: Record::Put(old(self).entries()[i].0, old(self)@[old(self).entries()[i].0]),
                    })
                &&& final(self).log().len() == old(self).entries().len()
                &&& total_len(final(self).positions()) == total_len(c.copies@)
                &&& forall|i: int|
                    0 <= i < final(self).positions().len() ==> #[trigger] final(self).positions()[i].pos
                        + final(self).positions()[i].len <= total_len(c.copies@)
            },
    {
        if self.current_gen > u64::MAX - 2 {
            return None;
        }
        let compaction_gen = self.current_gen + 1;
        let active_gen = self.current_gen + 2;
        let ghost positions = self.positions();
        let ghost view = self@;
        let n = self.index.len();
        let mut new_index: Vec<(String, CommandPos)> = Vec::new();
        let mut copies: Vec<CommandPos> = Vec::new();
        let mut new_log: Ghost<Seq<LogEntry>> = Ghost(Seq::empty());
        let mut pos: u64 = 0;
        let mut i: usize = 0;
        while i < n
            invariant
                n == self.index@.len(),
                self.wf(),
                self@ == view,
                positions == self.positions(),
                i <= n,
                new_index@.len() == i,
                copies@.len() == i,
                new_log@.len() == i,
                pos == total_len(positions.take(i as int)),
                forall|j: int| 0 <= j < i ==> #[trigger] copies@[j] == positions[j],
                forall|j: int|
                    0 <= j < i ==> {
                        &&& (#[trigger] new_index@[j]).0@ == self.index@[j].0@
                        &&& new_index@[j].1.gen == compaction_gen
                        &&& new_index@[j].1.pos == total_len(positions.take(j))
                        &&& new_index@[j].1.len == self.index@[j].1.len
                    },
                forall|j: int|
                    0 <= j < i ==> #[trigger] new_log@[j] == (LogEntry {
                        at: new_index@[j].1,
                        rec: Record::Put(self.index@[j].0@, view[self.index@[j].0@]),
                    }),
            decreases n - i,
        {
            let at = self.index[i].1;
            proof {
                assert(positions.take(i + 1).drop_last() =~= positions.take(i as int));
            }
            let end = match pos.checked_add(at.len) {
                Some(e) => e,
                None => {
                    proof {
                        lemma_total_len_prefix(positions, i + 1);
                    }
                    return None;
                },
            };
            let new_at = CommandPos { gen: compaction_gen, pos, len: at.len };
            new_log = Ghost(
                new_log@.push(
                    LogEntry { at: new_at, rec: Record::Put(self.index@[i as int].0@, view[self.index@[i as int].0@]) },
                ),
            );
            let key = self.index[i].0.clone();
            let ghost prev = new_index@;
            new_index.push((key, new_at));
            proof {
                assert forall|j: int| 0 <= j < i + 1 implies {
                    &&& (#[trigger] new_index@[j]).0@ == self.index@[j].0@
                    &&& new_index@[j].1.gen == compaction_gen
                    &&& new_index@[j].1.pos == total_len(positions.take(j))
                    &&& new_index@[j].1.len == self.index@[j].1.len
                } by {
                    if j < i {
                        assert(new_index@[j] == prev[j]);
                    }
                }
            }
            copies.push(at);
            pos = end;
            i += 1;
        }
        proof {
            assert(positions.take(n as int) =~= positions);
        }
        let mut stale = vec![compaction_gen, active_gen];
        std::mem::swap(&mut stale, &mut self.gens);
        let ghost old_index = self.index@;
        self.index = new_index;
        self.current_gen = active_gen;
        self.canbe_compacted = 0;
        self.log = new_log;
        proof {
            lemma_replay_puts(records(self.log@), view);
            let keys = Set::new(|k: Seq<char>| exists|j: int| 0 <= j < records(self.log@).len() && records(self.log@)[j]->Put_0 == k);
            assert forall|k: Seq<char>| view.contains_key(k) <==> keys.contains(k) by {
                if view.contains_key(k) {
                    let j = choose|j: int| 0 <= j < old_index.len() && old_index[j].0@ == k;
                    assert(records(self.log@)[j]->Put_0 == k);
                }
                if keys.contains(k) {
                    let j = choose|j: int| 0 <= j < records(self.log@).len() && records(self.log@)[j]->Put_0 == k;
                    assert(old_index[j].0@ == k);
                }
            }
            assert(view.restrict(keys) =~= view);
            assert(self@ == view);
            assert forall|k: Seq<char>|
                self@.contains_key(k) <==> exists|j: int|
                    0 <= j < self.index@.len() && self.index@[j].0@ == k by {
                if self@.contains_key(k) {
                    let j = choose|j: int| 0 <= j < old_index.len() && old_index[j].0@ == k;
                    assert(self.index@[j].0@ == k);
                }
            }
            assert forall|j: int| 0 <= j < self.index@.len() implies latest_put(
                self.log@,
                #[trigger] self.index@[j].1,
                self.index@[j].0@,
                self@[self.index@[j].0@],
            ) by {
                assert(self.log@[j] == new_log@[j]);
            }
            assert forall|j: int| 0 <= j < self.index@.len() implies self.gens@.contains(
                #[trigger] self.index@[j].1.gen,
            ) by {
                assert(self.gens@[0] == compaction_gen);
            }
            lemma_total_len_eq(self.positions(), copies@);
            assert(copies@ =~= positions);
            assert forall|j: int| 0 <= j < self.positions().len() implies #[trigger] self.positions()[j].pos
                + self.positions()[j].len <= total_len(copies@) by {
                assert(self.positions()[j] == self.index@[j].1);
                assert(positions.take(j + 1).drop_last() =~= positions.take(j));
                assert(positions.take(j + 1).last() == positions[j]);
                lemma_total_len_prefix(positions, j + 1);
            }
        }
        Some(Compaction { compaction_gen, active_gen, copies, stale })
    }
}

/// Restart equivalence: a store rebuilt from the records of another store's
/// logs, in the same order, holds what that store holds.
pub proof fn lemma_restart_equivalence(running: &KvStore, reopened: &KvStore)
    requires
        running.wf(),
        reopened.wf(),
        records(reopened.log()) == records(running.log()),
    ensures
        reopened@ == running@,
{
}

/// What a store holds is what its logs hold: the effect of their records,
/// applied in order to an empty map; and for each key it holds, the index
/// points at a `Put` of that key with its value.
pub proof fn lemma_contents_are_replay(s: &KvStore, k: Seq<char>)
    requires
        s.wf(),
    ensures
        s@ == replay(records(s.log())),
        s@.contains_key(k) ==> latest_put(s.log(), s.entry(k), k, s@[k]),
{
    if s@.contains_key(k) {
        let i = choose|i: int| 0 <= i < s.index@.len() && s.index@[i].0@ == k;
        s.lemma_slot(i);
    }
}

/// A call that a user makes on a store: `set(k, v)` or `remove(k)`.
pub enum Op {
    Assign(Seq<char>, Seq<char>),
    Delete(Seq<char>),
}

/// The plain map that a sequence of calls leaves: `set` inserts or
/// overwrites, `remove` deletes (and leaves the map as it is where the key is
/// absent).
pub open spec fn reference(ops: Seq<Op>) -> Map<Seq<char>, Seq<char>>
    decreases ops.len(),
{
    if ops.len() == 0 {
        Map::empty()
    } else {
        let m = reference(ops.drop_last());
        match ops.last() {
            Op::Assign(k, v) => m.insert(k, v),
            Op::Delete(k) => m.remove(k),
        }
    }
}

/// What `set`, `remove` (its `Ok` and its `Err`) and `compact` allow between
/// two consecutive calls.
pub open spec fn allowed_step(before: Map<Seq<char>, Seq<char>>, op: Op, after: Map<Seq<char>, Seq<char>>) -> bool {
    match op {
        Op::Assign(k, v) => after == before.insert(k, v),
        Op::Delete(k) => after == before.remove(k),
    }
}

/// A store driven from empty through a sequence of calls holds what the plain
/// map holds after the same calls, and its index points, for each key, at a
/// `Put` of the map's value that no later record of the key follows.
pub proof fn lemma_matches_reference(stores: Seq<KvStore>, ops: Seq<Op>)
    requires
        stores.len() == ops.len() + 1,
        stores[0]@ == Map::<Seq<char>, Seq<char>>::empty(),
        forall|i: int| 0 <= i < ops.len() ==> allowed_step(stores[i]@, #[trigger] ops[i], stores[i + 1]@),
        stores.last().wf(),
    ensures
        stores.last()@ == reference(ops),
        forall|k: Seq<char>|
            #[trigger] reference(ops).contains_key(k) ==> latest_put(
                stores.last().log(),
                stores.last().entry(k),
                k,
                reference(ops)[k],
            ),
{
    lemma_views_match_reference(stores, ops);
    let last = stores.last();
    assert forall|k: Seq<char>| #[trigger] reference(ops).contains_key(k) implies latest_put(
        last.log(),
        last.entry(k),
        k,
        reference(ops)[k],
    ) by {
        lemma_contents_are_replay(&last, k);
    }
}

proof fn lemma_views_match_reference(stores: Seq<KvStore>, ops: Seq<Op>)
    requires
        stores.len() == ops.len() + 1,
        stores[0]@ == Map::<Seq<char>, Seq<char>>::empty(),
        forall|i: int| 0 <= i < ops.len() ==> allowed_step(stores[i]@, #[trigger] ops[i], stores[i + 1]@),
    ensures
        stores.last()@ == reference(ops),
    decreases ops.len(),
{
    if ops.len() > 0 {
        let s2 = stores.drop_last();
        let o2 = ops.drop_last();
        assert forall|i: int| 0 <= i < o2.len() implies allowed_step(s2[i]@, #[trigger] o2[i], s2[i + 1]@) by {
            assert(o2[i] == ops[i]);
            assert(s2[i] == stores[i] && s2[i + 1] == stores[i + 1]);
        }
        lemma_views_match_reference(s2, o2);
        assert(allowed_step(stores[ops.len() - 1]@, ops[ops.len() - 1], stores[ops.len() as int]@));
    }
}

} // verus!
