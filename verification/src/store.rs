//! The log-structured storage engine.  A `KvStore` owns the image of
//! its active log segment, the index derived from it, and the
//! compaction counter.  The invariant throughout: the index equals the
//! replay of the segment's records, so the log is the single source of
//! truth and the index is a rebuildable artifact.
//!
//! File handling stays outside: `open` takes the segment contents that
//! were read from disk, and callers persist `segment_bytes` (appending
//! what grew, or rewriting after compaction).

use vstd::prelude::*;

use vstd::set::axiom_set_insert_len;

use crate::codec::{
    cmd_encodable, decode_command, encode_cmd, encode_command, encode_seq, lemma_encode_seq_min_len,
    lemma_encode_seq_snoc, lemma_records_full, seq_encodable, spec_records, Decoded,
};
use crate::command::{CmdView, KvsCommand};
use crate::error::KvError;
use crate::replay::{apply_cmd, lemma_replay_dom_bound, lemma_replay_from_snoc, replay};

verus! {

/// Compaction runs once more than this many stale records have
/// accumulated in the active segment.
pub const COMPACT_LIMIT: usize = 1000;

/// The marker bytes that open every segment this engine writes; a store
/// directory written by another backend fails this check.
pub open spec fn seg_magic() -> Seq<u8> {
    seq![75u8, 86u8, 83u8, 76u8, 79u8, 71u8, 49u8, 10u8]
}

/// A fresh segment image holding only the marker.
fn magic_vec() -> (r: Vec<u8>)
    ensures
        r@ == seg_magic(),
{
    let mut v: Vec<u8> = Vec::new();
    v.push(75);
    v.push(86);
    v.push(83);
    v.push(76);
    v.push(79);
    v.push(71);
    v.push(49);
    v.push(10);
    assert(v@ =~= seg_magic());
    v
}

// ---------------------------------------------------------------------------
// The index: an association list with pairwise-distinct keys.
// ---------------------------------------------------------------------------
/// The map an entry list stands for, later entries winning.
pub open spec fn as_map(s: Seq<(String, String)>) -> Map<Seq<char>, Seq<char>>
    decreases s.len(),
{
    if s.len() == 0 {
        Map::empty()
    } else {
        as_map(s.drop_last()).insert(s.last().0@, s.last().1@)
    }
}

/// Entry keys are pairwise distinct.
pub open spec fn unique_keys(s: Seq<(String, String)>) -> bool {
    forall|i: int, j: int| 0 <= i < j < s.len() ==> (#[trigger] s[i]).0@ != (#[trigger] s[j]).0@
}

/// The commands compaction writes: one `Put` per live pair.
pub open spec fn snapshot_cmds(s: Seq<(String, String)>) -> Seq<CmdView> {
    Seq::new(s.len(), |i: int| CmdView::Put(s[i].0@, s[i].1@))
}

/// What a unique-keyed entry list's map holds: exactly its entries.
proof fn lemma_as_map_membership(s: Seq<(String, String)>)
    requires
        unique_keys(s),
    ensures
        forall|k: Seq<char>|
            #[trigger] as_map(s).contains_key(k) ==> exists|i: int|
                0 <= i < s.len() && (#[trigger] s[i]).0@ == k,
        forall|i: int|
            0 <= i < s.len() ==> as_map(s).contains_key((#[trigger] s[i]).0@) && as_map(
                s,
            )[s[i].0@] == s[i].1@,
    decreases s.len(),
{
    if s.len() > 0 {
        let init = s.drop_last();
        let last = s.last();
        assert(forall|i: int| 0 <= i < init.len() ==> #[trigger] init[i] == s[i]);
        lemma_as_map_membership(init);
        assert(as_map(s) == as_map(init).insert(last.0@, last.1@));
        assert forall|i: int|
            0 <= i < s.len() implies as_map(s).contains_key((#[trigger] s[i]).0@) && as_map(
            s,
        )[s[i].0@] == s[i].1@ by {
            if i < s.len() - 1 {
                assert(init[i] == s[i]);
                assert(as_map(init).contains_key(init[i].0@) && as_map(init)[init[i].0@]
                    == init[i].1@);
                assert(s[i].0@ != last.0@);
            } else {
                assert(s[i] == last);
            }
        }
        assert forall|k: Seq<char>| #[trigger] as_map(s).contains_key(k) implies exists|i: int|
            0 <= i < s.len() && (#[trigger] s[i]).0@ == k by {
            if k != last.0@ {
                assert(as_map(init).contains_key(k));
                let i = choose|i: int| 0 <= i < init.len() && (#[trigger] init[i]).0@ == k;
                assert(s[i].0@ == k);
            } else {
                assert(s[s.len() - 1].0@ == k);
            }
        }
    }
}

/// A unique-keyed entry list has exactly one live key per entry.
proof fn lemma_as_map_len(s: Seq<(String, String)>)
    requires
        unique_keys(s),
    ensures
        as_map(s).dom().finite(),
        as_map(s).dom().len() == s.len(),
    decreases s.len(),
{
    if s.len() > 0 {
        let init = s.drop_last();
        let last = s.last();
        assert(forall|i: int| 0 <= i < init.len() ==> #[trigger] init[i] == s[i]);
        lemma_as_map_len(init);
        lemma_as_map_membership(init);
        if as_map(init).contains_key(last.0@) {
            let i = choose|i: int| 0 <= i < init.len() && (#[trigger] init[i]).0@ == last.0@;
            assert(s[i].0@ == s[s.len() - 1].0@);
            assert(false);
        }
        axiom_set_insert_len(as_map(init).dom(), last.0@);
        assert(as_map(s).dom() =~= as_map(init).dom().insert(last.0@));
    }
}

/// An entry list whose entries all stand in `m`, and cover `m`, is
/// `m` itself.
proof fn lemma_as_map_eq(s: Seq<(String, String)>, m: Map<Seq<char>, Seq<char>>)
    requires
        unique_keys(s),
        forall|i: int|
            0 <= i < s.len() ==> m.contains_key((#[trigger] s[i]).0@) && m[s[i].0@] == s[i].1@,
        forall|k: Seq<char>|
            #[trigger] m.contains_key(k) ==> exists|i: int|
                0 <= i < s.len() && (#[trigger] s[i]).0@ == k,
    ensures
        as_map(s) == m,
{
    lemma_as_map_membership(s);
    assert forall|k: Seq<char>| #[trigger] as_map(s).contains_key(k) implies m.contains_key(k)
        && as_map(s)[k] == m[k] by {
        let i = choose|i: int| 0 <= i < s.len() && (#[trigger] s[i]).0@ == k;
        assert(as_map(s)[k] == s[i].1@);
        assert(m[k] == s[i].1@);
    }
    assert forall|k: Seq<char>| #[trigger] m.contains_key(k) implies as_map(s).contains_key(k) by {
        let i = choose|i: int| 0 <= i < s.len() && (#[trigger] s[i]).0@ == k;
        assert(as_map(s).contains_key(s[i].0@));
    }
    assert(as_map(s) =~= m);
}

/// Law (compaction equivalence, replay half): one `Put` per live pair,
/// replayed from the empty index, reproduces exactly that index.
pub proof fn lemma_snapshot_replay(s: Seq<(String, String)>)
    ensures
        replay(snapshot_cmds(s)) == as_map(s),
    decreases s.len(),
{
    if s.len() == 0 {
        assert(snapshot_cmds(s) =~= Seq::<CmdView>::empty());
    } else {
        let init = s.drop_last();
        lemma_snapshot_replay(init);
        assert(snapshot_cmds(s) =~= snapshot_cmds(init).push(
            CmdView::Put(s.last().0@, s.last().1@),
        ));
        lemma_replay_from_snoc(
            Map::empty(),
            snapshot_cmds(init),
            CmdView::Put(s.last().0@, s.last().1@),
        );
    }
}

/// The in-memory index of the engine.
struct Index {
    entries: Vec<(String, String)>,
}

impl Index {
    fn new() -> (r: Index)
        ensures
            r.entries@ == Seq::<(String, String)>::empty(),
            unique_keys(r.entries@),
    {
        Index { entries: Vec::new() }
    }

    /// The position of `key`, if it is live.
    fn find(&self, key: &String) -> (r: Option<usize>)
        ensures
            match r {
                Option::Some(i) => i < self.entries@.len() && self.entries@[i as int].0@ == key@,
                Option::None => forall|j: int|
                    0 <= j < self.entries@.len() ==> (#[trigger] self.entries@[j]).0@ != key@,
            },
    {
        let mut i: usize = 0;
        while i < self.entries.len()
            invariant
                i <= self.entries@.len(),
                forall|j: int| 0 <= j < i ==> (#[trigger] self.entries@[j]).0@ != key@,
            decreases self.entries@.len() - i,
        {
            if self.entries[i].0 == *key {
                return Option::Some(i);
            }
            i = i + 1;
        }
        Option::None
    }

    fn contains(&self, key: &String) -> (r: bool)
        requires
            unique_keys(self.entries@),
        ensures
            r == as_map(self.entries@).contains_key(key@),
    {
        proof {
            lemma_as_map_membership(self.entries@);
        }
        match self.find(key) {
            Option::Some(_) => true,
            Option::None => false,
        }
    }

    fn get_value(&self, key: &String) -> (r: Option<String>)
        requires
            unique_keys(self.entries@),
        ensures
            match r {
                Option::Some(v) => as_map(self.entries@).contains_key(key@) && v@ == as_map(
                    self.entries@,
                )[key@],
                Option::None => !as_map(self.entries@).contains_key(key@),
            },
    {
        proof {
            lemma_as_map_membership(self.entries@);
        }
        match self.find(key) {
            Option::Some(i) => Option::Some(self.entries[i].1.clone()),
            Option::None => Option::None,
        }
    }

    fn insert(&mut self, key: String, value: String)
        requires
            unique_keys(old(self).entries@),
        ensures
            unique_keys(final(self).entries@),
            as_map(final(self).entries@) == as_map(old(self).entries@).insert(key@, value@),
    {
        let ghost s_old = self.entries@;
        let ghost m = as_map(s_old).insert(key@, value@);
        proof {
            lemma_as_map_membership(s_old);
        }
        match self.find(&key) {
            Option::Some(i) => {
                self.entries[i] = (key, value);
                proof {
                    let s_new = self.entries@;
                    assert(forall|j: int|
                        0 <= j < s_new.len() && j != i ==> #[trigger] s_new[j] == s_old[j]);
                    assert forall|k2: Seq<char>| #[trigger] m.contains_key(k2) implies exists|
                        j: int,
                    |
                        0 <= j < s_new.len() && (#[trigger] s_new[j]).0@ == k2 by {
                        if k2 == s_new[i as int].0@ {
                            assert(s_new[i as int].0@ == k2);
                        } else {
                            let j = choose|j: int|
                                0 <= j < s_old.len() && (#[trigger] s_old[j]).0@ == k2;
                            assert(s_new[j].0@ == k2);
                        }
                    }
                    lemma_as_map_eq(s_new, m);
                }
            },
            Option::None => {
                self.entries.push((key, value));
                proof {
                    let s_new = self.entries@;
                    assert(forall|j: int|
                        0 <= j < s_old.len() ==> #[trigger] s_new[j] == s_old[j]);
                    assert forall|k2: Seq<char>| #[trigger] m.contains_key(k2) implies exists|
                        j: int,
                    |
                        0 <= j < s_new.len() && (#[trigger] s_new[j]).0@ == k2 by {
                        if k2 == key@ {
                            assert(s_new[s_new.len() - 1].0@ == k2);
                        } else {
                            let j = choose|j: int|
                                0 <= j < s_old.len() && (#[trigger] s_old[j]).0@ == k2;
                            assert(s_new[j].0@ == k2);
                        }
                    }
                    lemma_as_map_eq(s_new, m);
                }
            },
        }
    }

    fn remove(&mut self, key: &String)
        requires
            unique_keys(old(self).entries@),
        ensures
            unique_keys(final(self).entries@),
            as_map(final(self).entries@) == as_map(old(self).entries@).remove(key@),
    {
        let ghost s_old = self.entries@;
        let ghost m = as_map(s_old).remove(key@);
        proof {
            lemma_as_map_membership(s_old);
        }
        match self.find(key) {
            Option::Some(i) => {
                let _removed = self.entries.remove(i);
                proof {
                    let s_new = self.entries@;
                    assert(forall|j: int|
                        0 <= j < s_new.len() ==> #[trigger] s_new[j] == (if j < i {
                            s_old[j]
                        } else {
                            s_old[j + 1]
                        }));
                    assert forall|a: int, b: int| 0 <= a < b < s_new.len() implies (
                    #[trigger] s_new[a]).0@ != (#[trigger] s_new[b]).0@ by {
                        let a0 = if a < i { a } else { a + 1 };
                        let b0 = if b < i { b } else { b + 1 };
                        assert(s_old[a0].0@ != s_old[b0].0@);
                    }
                    assert forall|j: int|
                        0 <= j < s_new.len() implies m.contains_key((#[trigger] s_new[j]).0@)
                        && m[s_new[j].0@] == s_new[j].1@ by {
                        let j0 = if j < i { j } else { j + 1 };
                        assert(s_new[j] == s_old[j0]);
                        assert(s_old[j0].0@ != key@);
                    }
                    assert forall|k2: Seq<char>| #[trigger] m.contains_key(k2) implies exists|
                        j: int,
                    |
                        0 <= j < s_new.len() && (#[trigger] s_new[j]).0@ == k2 by {
                        let j0 = choose|j0: int|
                            0 <= j0 < s_old.len() && (#[trigger] s_old[j0]).0@ == k2;
                        assert(j0 != i);
                        if j0 < i {
                            assert(s_new[j0].0@ == k2);
                        } else {
                            assert(s_new[j0 - 1].0@ == k2);
                        }
                    }
                    lemma_as_map_eq(s_new, m);
                }
            },
            Option::None => {
                proof {
                    assert(!as_map(s_old).contains_key(key@));
                    assert(m =~= as_map(s_old));
                }
            },
        }
    }

    fn len(&self) -> (r: usize)
        requires
            unique_keys(self.entries@),
        ensures
            r == as_map(self.entries@).dom().len(),
            as_map(self.entries@).dom().finite(),
    {
        proof {
            lemma_as_map_len(self.entries@);
        }
        self.entries.len()
    }
}

// ---------------------------------------------------------------------------
// The store handle.
// ---------------------------------------------------------------------------
/// The live, in-process owner of the index and the active segment
/// image.  Callers persist `segment_bytes()` after each mutation.
pub struct KvStore {
    storage: Index,
    path: String,
    log: Vec<u8>,
    records: usize,
    history: Ghost<Seq<CmdView>>,
}

impl View for KvStore {
    type V = Map<Seq<char>, Seq<char>>;

    /// The live keys and their current values.
    closed spec fn view(&self) -> Map<Seq<char>, Seq<char>> {
        as_map(self.storage.entries@)
    }
}

impl KvStore {
    /// The commands recorded in the active segment, oldest first.
    pub closed spec fn hist(&self) -> Seq<CmdView> {
        self.history@
    }

    /// The byte image of the active segment: marker, then records.
    pub closed spec fn segment(&self) -> Seq<u8> {
        self.log@
    }

    pub closed spec fn store_path(&self) -> Seq<char> {
        self.path@
    }

    /// The index keys are pairwise distinct.
    pub closed spec fn index_wf(&self) -> bool {
        unique_keys(self.storage.entries@)
    }

    /// Segment-side invariant: the image is the marker followed by the
    /// records of `hist()`, all encodable, and the counter matches.
    pub closed spec fn log_wf(&self) -> bool {
        &&& self.log@ == seg_magic() + encode_seq(self.history@)
        &&& self.records == self.history@.len()
        &&& seq_encodable(self.history@)
    }

    /// The engine invariant: the index is exactly the replay of the
    /// active segment's records.
    pub closed spec fn wf(&self) -> bool {
        &&& self.index_wf()
        &&& self.log_wf()
        &&& self@ == replay(self.history@)
    }

    /// A fresh, empty store that would persist under `store.db`.
    pub fn new() -> (r: KvStore)
        ensures
            r.wf(),
            r@ == Map::<Seq<char>, Seq<char>>::empty(),
            r.hist() == Seq::<CmdView>::empty(),
            r.segment() == seg_magic(),
            r.store_path() == "store.db"@,
    {
        let r = KvStore {
            storage: Index::new(),
            path: "store.db".to_owned(),
            log: magic_vec(),
            records: 0,
            history: Ghost(Seq::empty()),
        };
        r
    }

    /// Whether `bytes` begin a segment this engine wrote: the backend
    /// marker that engine selection tests before a directory may be
    /// handed to a different backend.
    pub fn is_log_segment_prefix(bytes: &Vec<u8>) -> (r: bool)
        ensures
            r == (bytes@.len() >= 8 && bytes@.subrange(0, 8) == seg_magic()),
    {
        if bytes.len() < 8 {
            return false;
        }
        let ok = bytes[0] == 75 && bytes[1] == 86 && bytes[2] == 83 && bytes[3] == 76 && bytes[4]
            == 79 && bytes[5] == 71 && bytes[6] == 49 && bytes[7] == 10;
        proof {
            if ok {
                assert(bytes@.subrange(0, 8) =~= seg_magic());
            } else {
                assert(bytes@.subrange(0, 8) != seg_magic());
            }
        }
        ok
    }

    /// Law (persistence round trip): a well-formed store's segment is
    /// a valid store image — the marker followed by records that
    /// replay to exactly the current index — so a caller that persists
    /// `segment_bytes()` and opens what it wrote gets, by `open`'s
    /// contract, the same index back.
    pub proof fn lemma_segment_replays(&self)
        requires
            self.wf(),
        ensures
            self.segment().len() >= 8,
            self.segment().subrange(0, 8) == seg_magic(),
            spec_records(self.segment().skip(8)) == Option::Some(self.hist()),
            replay(self.hist()) == self@,
    {
        lemma_records_full(self.history@);
        assert(self.segment().subrange(0, 8) =~= seg_magic());
        assert(self.segment().skip(8) =~= encode_seq(self.history@));
    }

    /// The current segment image, for the caller to persist.
    pub fn segment_bytes(&self) -> (r: &Vec<u8>)
        ensures
            r@ == self.segment(),
    {
        &self.log
    }

    pub fn segment_len(&self) -> (r: usize)
        ensures
            r == self.segment().len(),
    {
        self.log.len()
    }

    /// Apply one replayed command to the index, leaving the segment
    /// image alone: the explicit fold step of log replay.
    pub fn load(store: &mut KvStore, command: &KvsCommand) -> (r: Result<(), KvError>)
        requires
            old(store).index_wf(),
        ensures
            r is Ok,
            final(store).index_wf(),
            final(store)@ == apply_cmd(old(store)@, command@),
            final(store).segment() == old(store).segment(),
            final(store).hist() == old(store).hist(),
            final(store).store_path() == old(store).store_path(),
            old(store).log_wf() ==> final(store).log_wf(),
    {
        match command {
            KvsCommand::Put(k, v) => {
                store.storage.insert(k.clone(), v.clone());
            },
            KvsCommand::Remove(k) => {
                store.storage.remove(k);
            },
            KvsCommand::Get(_) => {
            },
        }
        Result::Ok(())
    }

    /// Append one record to a segment image.
    fn write_command(log: &mut Vec<u8>, command: &KvsCommand)
        ensures
            final(log)@ == old(log)@ + encode_cmd(command@),
            cmd_encodable(command@),
    {
        let mut rec = encode_command(command);
        log.append(&mut rec);
    }

    /// Record one mutation in the segment, then compact if the stale
    /// count passed the limit.  The caller has already applied the
    /// mutation to the index.
    fn save(&mut self, command: &KvsCommand)
        requires
            old(self).index_wf(),
            old(self).log_wf(),
            as_map(old(self).storage.entries@) == replay(old(self).history@.push(command@)),
        ensures
            final(self).wf(),
            final(self)@ == old(self)@,
            final(self).store_path() == old(self).store_path(),
            final(self).hist() == old(self).hist().push(command@) || final(self).hist().len()
                == final(self)@.dom().len(),
    {
        proof {
            lemma_encode_seq_min_len(self.history@);
        }
        KvStore::write_command(&mut self.log, command);
        let loglen = self.log.len();
        assert(loglen >= 9 * self.records + 1);
        self.records = self.records + 1;
        proof {
            lemma_encode_seq_snoc(self.history@, command@);
            self.history@ = self.history@.push(command@);
            assert(self.log@ =~= seg_magic() + encode_seq(self.history@));
            assert forall|i: int|
                0 <= i < self.history@.len() implies cmd_encodable(
                #[trigger] self.history@[i],
            ) by {
                if i < self.history@.len() - 1 {
                    assert(cmd_encodable(old(self).history@[i]));
                }
            }
        }
        let live = self.storage.len();
        proof {
            lemma_replay_dom_bound(Map::empty(), self.history@);
        }
        if self.records - live > COMPACT_LIMIT {
            self.compact();
        }
    }

    /// Rewrite the segment to hold one `Put` per live pair, and reset
    /// the stale count.  The index before equals the index after, and
    /// replaying the new segment from empty reproduces it (compaction
    /// equivalence).
    pub fn compact(&mut self)
        requires
            old(self).wf(),
        ensures
            final(self).wf(),
            final(self)@ == old(self)@,
            final(self).store_path() == old(self).store_path(),
            replay(final(self).hist()) == final(self)@,
            final(self).hist().len() == final(self)@.dom().len(),
    {
        let mut newlog = magic_vec();
        let n = self.storage.entries.len();
        let mut i: usize = 0;
        while i < n
            invariant
                i <= n,
                n == self.storage.entries@.len(),
                self.storage.entries@ == old(self).storage.entries@,
                newlog@ == seg_magic() + encode_seq(
                    snapshot_cmds(self.storage.entries@.take(i as int)),
                ),
                seq_encodable(snapshot_cmds(self.storage.entries@.take(i as int))),
            decreases n - i,
        {
            let key = self.storage.entries[i].0.clone();
            let value = self.storage.entries[i].1.clone();
            let cmd = KvsCommand::Put(key, value);
            let ghost before = snapshot_cmds(self.storage.entries@.take(i as int));
            KvStore::write_command(&mut newlog, &cmd);
            proof {
                lemma_encode_seq_snoc(before, cmd@);
                assert(snapshot_cmds(self.storage.entries@.take(i + 1 as int)) =~= before.push(
                    cmd@,
                ));
                assert forall|j: int|
                    0 <= j < before.push(cmd@).len() implies cmd_encodable(
                    #[trigger] before.push(cmd@)[j],
                ) by {
                    if j < before.len() {
                        assert(cmd_encodable(before[j]));
                    }
                }
            }
            i = i + 1;
        }
        self.log = newlog;
        self.records = n;
        proof {
            assert(self.storage.entries@.take(n as int) =~= self.storage.entries@);
            self.history@ = snapshot_cmds(self.storage.entries@);
            lemma_snapshot_replay(self.storage.entries@);
            lemma_as_map_len(self.storage.entries@);
        }
    }

    /// Record the pair in the index and append `Put` to the segment
    /// durably; an existing value for the key becomes stale.
    pub fn set(&mut self, key: String, value: String) -> (r: Result<(), KvError>)
        requires
            old(self).wf(),
        ensures
            final(self).wf(),
            r is Ok,
            final(self)@ == old(self)@.insert(key@, value@),
            final(self).store_path() == old(self).store_path(),
            final(self).hist() == old(self).hist().push(CmdView::Put(key@, value@)) || final(self).hist().len() == final(self)@.dom().len(),
    {
        let cmd = KvsCommand::Put(key.clone(), value.clone());
        self.storage.insert(key, value);
        proof {
            lemma_replay_from_snoc(Map::empty(), self.history@, cmd@);
        }
        self.save(&cmd);
        Result::Ok(())
    }

    /// Look the key up in the index; absence is a plain `None`, never
    /// an error.
    pub fn get(&self, key: String) -> (r: Result<Option<String>, KvError>)
        requires
            self.wf(),
        ensures
            r matches Result::Ok(opt) && (match opt {
                Option::Some(v) => self@.contains_key(key@) && v@ == self@[key@],
                Option::None => !self@.contains_key(key@),
            }),
    {
        Result::Ok(self.storage.get_value(&key))
    }

    /// Remove a live key, appending `Remove` to the segment; removing
    /// a key with no live value fails with `KeyNotFound` and leaves
    /// both the index and the segment untouched.
    pub fn remove(&mut self, key: String) -> (r: Result<(), KvError>)
        requires
            old(self).wf(),
        ensures
            final(self).wf(),
            r is Ok <==> old(self)@.contains_key(key@),
            r is Ok ==> final(self)@ == old(self)@.remove(key@),
            r is Ok ==> final(self).hist() == old(self).hist().push(CmdView::Remove(key@))
                || final(self).hist().len() == final(self)@.dom().len(),
            r is Err ==> {
                &&& r->Err_0 is KeyNotFound
                &&& final(self)@ == old(self)@
                &&& final(self).segment() == old(self).segment()
                &&& final(self).hist() == old(self).hist()
            },
            final(self).store_path() == old(self).store_path(),
    {
        if !self.storage.contains(&key) {
            return Result::Err(KvError::KeyNotFound);
        }
        let cmd = KvsCommand::Remove(key.clone());
        self.storage.remove(&key);
        proof {
            lemma_replay_from_snoc(Map::empty(), self.history@, cmd@);
        }
        self.save(&cmd);
        Result::Ok(())
    }

    /// Open a store from the segment contents read at `path`, or start
    /// a fresh one when no store exists there.  Replay rebuilds the
    /// index; a truncated final record is discarded silently, any
    /// other undecodable record is fatal, and contents not written by
    /// this engine are rejected outright.
    pub fn open(path: String, contents: Option<Vec<u8>>) -> (r: Result<KvStore, KvError>)
        ensures
            match r {
                Result::Ok(store) => {
                    &&& store.wf()
                    &&& store.store_path() == path@
                    &&& match contents {
                        Option::None => {
                            &&& store@ == Map::<Seq<char>, Seq<char>>::empty()
                            &&& store.hist() == Seq::<CmdView>::empty()
                            &&& store.segment() == seg_magic()
                        },
                        Option::Some(bytes) => {
                            &&& bytes@.len() >= 8
                            &&& bytes@.subrange(0, 8) == seg_magic()
                            &&& spec_records(bytes@.skip(8)) == Option::Some(store.hist())
                            &&& store@ == replay(store.hist())
                        },
                    }
                },
                Result::Err(e) => match contents {
                    Option::None => false,
                    Option::Some(bytes) => {
                        ||| {
                            &&& e is EngineMismatch
                            &&& !(bytes@.len() >= 8 && bytes@.subrange(0, 8) == seg_magic())
                        }
                        ||| {
                            &&& e is CorruptLog
                            &&& bytes@.len() >= 8 && bytes@.subrange(0, 8) == seg_magic()
                            &&& spec_records(bytes@.skip(8)) is None
                        }
                    },
                },
            },
    {
        let bytes = match contents {
            Option::None => {
                let mut store = KvStore::new();
                store.path = path;
                return Result::Ok(store);
            },
            Option::Some(bytes) => bytes,
        };
        if !KvStore::is_log_segment_prefix(&bytes) {
            return Result::Err(KvError::EngineMismatch);
        }
        let mut store = KvStore::new();
        store.path = path;
        let mut pos: usize = 8;
        loop
            invariant
                8 <= pos <= bytes@.len(),
                store.index_wf(),
                store.log_wf(),
                store@ == replay(store.history@),
                store.store_path() == path@,
                contents == Option::Some(bytes),
                bytes@.len() >= 8,
                bytes@.subrange(0, 8) == seg_magic(),
                spec_records(bytes@.skip(pos as int)) is Some ==> spec_records(bytes@.skip(8))
                    == Option::Some(store.history@ + spec_records(bytes@.skip(pos as int))->0),
                spec_records(bytes@.skip(pos as int)) is None ==> spec_records(bytes@.skip(8))
                    is None,
            decreases bytes@.len() - pos,
        {
            match decode_command(&bytes, pos) {
                Decoded::Done(cmd, next) => {
                    let ghost tail = bytes@.skip(pos as int);
                    let ghost consumed = next - pos;
                    proof {
                        assert(bytes@.skip(next as int) =~= tail.skip(consumed as int));
                        lemma_encode_seq_min_len(store.history@);
                    }
                    KvStore::write_command(&mut store.log, &cmd);
                    let loglen = store.log.len();
                    assert(loglen >= 9 * store.records + 1);
                    store.records = store.records + 1;
                    proof {
                        lemma_encode_seq_snoc(store.history@, cmd@);
                        lemma_replay_from_snoc(Map::empty(), store.history@, cmd@);
                        let ghost h_old = store.history@;
                        store.history@ = store.history@.push(cmd@);
                        assert(store.log@ =~= seg_magic() + encode_seq(store.history@));
                        assert forall|i: int|
                            0 <= i < store.history@.len() implies cmd_encodable(
                            #[trigger] store.history@[i],
                        ) by {
                            if i < store.history@.len() - 1 {
                                assert(cmd_encodable(h_old[i]));
                            }
                        }
                        if spec_records(bytes@.skip(next as int)) is Some {
                            let rest = spec_records(bytes@.skip(next as int))->0;
                            assert(h_old + (seq![cmd@] + rest) =~= store.history@ + rest);
                        }
                    }
                    let _ = KvStore::load(&mut store, &cmd);
                    pos = next;
                },
                Decoded::Incomplete => {
                    proof {
                        assert(spec_records(bytes@.skip(pos as int)) == Option::Some(
                            Seq::<CmdView>::empty(),
                        ));
                        assert(store.history@ + Seq::<CmdView>::empty() =~= store.history@);
                    }
                    return Result::Ok(store);
                },
                Decoded::Malformed => {
                    return Result::Err(KvError::CorruptLog("malformed log record".to_owned()));
                },
            }
        }
    }
}

} // verus!
