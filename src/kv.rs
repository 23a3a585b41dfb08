//! The store's state: the index from keys to record locations, the active
//! segment and the count of dead bytes, with the steps that change it.
use crate::codec::{
    decode_record, decodes_rm, decodes_set, json_of, json_text_of, parse_record, readable, RecordShape,
};
use crate::command::Commands;
use crate::log::{index_after, LogRecord, Op};
use crate::error::{KvErr, Result};
use vstd::prelude::*;

verus! {

/// Dead bytes beyond which the log is compacted.
pub const COMPACTION_THRESHOLD: u64 = 1024;

/// Where the authoritative `Set` record of a key lies.
#[derive(Clone, Copy, Debug, PartialEq, Eq, Structural)]
pub struct KvEntry {
    /// Segment that holds the record.
    pub file_id: u64,
    /// Length of the record in bytes.
    pub value_sz: u64,
    /// Offset of the record's first byte in its segment.
    pub value_pos: u64,
}

/// The state of a store.
pub struct KvStore {
    keys: Vec<String>,
    entries: Vec<KvEntry>,
    current_file_id: u64,
    current_file_offset: u64,
    redundant_data_sz: u64,
}

pub open spec fn key_views(keys: Seq<String>) -> Seq<Seq<char>> {
    keys.map_values(|s: String| s@)
}

pub open spec fn unique_keys(ks: Seq<Seq<char>>) -> bool {
    forall|i: int, j: int| 0 <= i < j < ks.len() ==> ks[i] != ks[j]
}

/// The map that a list of distinct keys and their entries stands for.
pub open spec fn index_map(ks: Seq<Seq<char>>, es: Seq<KvEntry>) -> Map<Seq<char>, KvEntry> {
    Map::new(|k: Seq<char>| ks.contains(k), |k: Seq<char>| es[ks.index_of(k)])
}

/// `a + b`, held at `u64::MAX`.
pub open spec fn sat_add(a: u64, b: u64) -> u64 {
    if a + b > u64::MAX {
        u64::MAX
    } else {
        (a + b) as u64
    }
}

fn saturating_add(a: u64, b: u64) -> (r: u64)
    ensures
        r == sat_add(a, b),
{
    if a > u64::MAX - b {
        u64::MAX
    } else {
        a + b
    }
}

/// The sum of the record lengths of `es`.
pub open spec fn sizes_sum(es: Seq<KvEntry>) -> int
    decreases es.len(),
{
    if es.len() == 0 {
        0
    } else {
        sizes_sum(es.drop_last()) + es.last().value_sz
    }
}

proof fn lemma_sizes_sum_prefix(es: Seq<KvEntry>, i: int)
    requires
        0 <= i <= es.len(),
    ensures
        sizes_sum(es.take(i)) <= sizes_sum(es),
    decreases es.len() - i,
{
    if i < es.len() {
        lemma_sizes_sum_prefix(es, i + 1);
        assert(es.take(i + 1).drop_last() =~= es.take(i));
    } else {
        assert(es.take(i) =~= es);
    }
}

proof fn lemma_index_map(ks: Seq<Seq<char>>, es: Seq<KvEntry>)
    requires
        unique_keys(ks),
        ks.len() == es.len(),
    ensures
        forall|i: int|
            0 <= i < ks.len() ==> #[trigger] index_map(ks, es).contains_key(ks[i])
                && index_map(ks, es)[ks[i]] == es[i],
        forall|k: Seq<char>| #[trigger]
            index_map(ks, es).contains_key(k) <==> exists|i: int| 0 <= i < ks.len() && ks[i] == k,
{
    assert forall|i: int| 0 <= i < ks.len() implies #[trigger] index_map(ks, es).contains_key(ks[i])
        && index_map(ks, es)[ks[i]] == es[i] by {
        assert(ks.contains(ks[i]));
        let j = ks.index_of(ks[i]);
        assert(0 <= j < ks.len() && ks[j] == ks[i]);
    }
}

/// The entries `es` moved back to back onto segment `n`, with a copy of
/// `es`; `None` where their lengths do not sum within `u64`.
fn relocate(es: &Vec<KvEntry>, n: u64) -> (r: Option<(Vec<KvEntry>, Vec<KvEntry>)>)
    ensures
        r is None <==> sizes_sum(es@) > u64::MAX,
        r matches Some((moved, plan)) ==> {
            &&& plan@ == es@
            &&& moved@.len() == es@.len()
            &&& forall|j: int|
                0 <= j < es@.len() ==> #[trigger] moved@[j] == (KvEntry {
                    file_id: n,
                    value_sz: es@[j].value_sz,
                    value_pos: sizes_sum(es@.take(j)) as u64,
                })
        },
{
    let mut plan: Vec<KvEntry> = Vec::new();
    let mut moved: Vec<KvEntry> = Vec::new();
    let mut pos: u64 = 0;
    let mut i: usize = 0;
    while i < es.len()
        invariant
            i <= es@.len(),
            plan@ == es@.take(i as int),
            pos == sizes_sum(es@.take(i as int)),
            moved@.len() == i,
            forall|j: int|
                0 <= j < i ==> #[trigger] moved@[j] == (KvEntry {
                    file_id: n,
                    value_sz: es@[j].value_sz,
                    value_pos: sizes_sum(es@.take(j)) as u64,
                }),
        decreases es@.len() - i,
    {
        let e = es[i];
        proof {
            assert(es@.take(i + 1).drop_last() =~= es@.take(i as int));
        }
        if e.value_sz > u64::MAX - pos {
            proof {
                lemma_sizes_sum_prefix(es@, i + 1);
            }
            return None;
        }
        moved.push(KvEntry { file_id: n, value_sz: e.value_sz, value_pos: pos });
        plan.push(e);
        pos = pos + e.value_sz;
        i = i + 1;
        proof {
            assert(plan@ =~= es@.take(i as int));
        }
    }
    proof {
        assert(es@.take(es@.len() as int) =~= es@);
    }
    Some((moved, plan))
}

/// Each key keeps its place in the list; its entry moves to segment `n`,
/// at the sum of the lengths before it.
proof fn lemma_compacted(ks: Seq<Seq<char>>, es: Seq<KvEntry>, moved: Seq<KvEntry>, n: u64)
    requires
        unique_keys(ks),
        ks.len() == es.len(),
        moved.len() == es.len(),
        forall|j: int|
            0 <= j < es.len() ==> #[trigger] moved[j] == (KvEntry {
                file_id: n,
                value_sz: es[j].value_sz,
                value_pos: sizes_sum(es.take(j)) as u64,
            }),
    ensures
        index_map(ks, moved).dom() == index_map(ks, es).dom(),
        forall|k: Seq<char>| #[trigger]
            index_map(ks, es).contains_key(k) ==> exists|i: int|
                0 <= i < es.len() && es[i] == index_map(ks, es)[k] && index_map(ks, moved)[k]
                    == (KvEntry {
                    file_id: n,
                    value_sz: es[i].value_sz,
                    value_pos: sizes_sum(es.take(i)) as u64,
                }),
        forall|i: int|
            0 <= i < ks.len() ==> #[trigger] index_map(ks, es).contains_key(ks[i])
                && index_map(ks, es)[ks[i]] == es[i],
{
    lemma_index_map(ks, es);
    lemma_index_map(ks, moved);
    assert forall|k: Seq<char>| #[trigger] index_map(ks, es).contains_key(k) implies exists|i: int|
        0 <= i < es.len() && es[i] == index_map(ks, es)[k] && index_map(ks, moved)[k]
            == (KvEntry {
            file_id: n,
            value_sz: es[i].value_sz,
            value_pos: sizes_sum(es.take(i)) as u64,
        }) by {
        let j = choose|j: int| 0 <= j < ks.len() && ks[j] == k;
        assert(moved[j] == index_map(ks, moved)[k]);
    }
    assert(index_map(ks, moved).dom() =~= index_map(ks, es).dom());
}

/// The index and dead bytes after the record `shape`, found at bytes
/// `[p, e)` of segment `id`, is replayed over `st`.
pub open spec fn apply_shape(
    st: (Map<Seq<char>, KvEntry>, u64),
    id: u64,
    p: int,
    e: int,
    shape: RecordShape,
) -> (Map<Seq<char>, KvEntry>, u64) {
    let (m, dead) = st;
    match shape {
        RecordShape::SetShape { key, value } => {
            let k = json_text_of(key);
            (
                m.insert(k, KvEntry { file_id: id, value_sz: (e - p) as u64, value_pos: p as u64 }),
                if m.contains_key(k) {
                    sat_add(dead, m[k].value_sz)
                } else {
                    dead
                },
            )
        },
        RecordShape::RmShape { key } => {
            let k = json_text_of(key);
            (
                m.remove(k),
                if m.contains_key(k) {
                    sat_add(sat_add(dead, m[k].value_sz), (e - p) as u64)
                } else {
                    sat_add(dead, (e - p) as u64)
                },
            )
        },
    }
}

/// The index and dead bytes after replaying the records of segment `id`,
/// whose bytes are `b`, from position `p` to the end over `st`; `None` where
/// the bytes from `p` on are not a run of records.
pub open spec fn replayed(
    st: (Map<Seq<char>, KvEntry>, u64),
    id: u64,
    b: Seq<u8>,
    p: int,
) -> Option<(Map<Seq<char>, KvEntry>, u64)>
    decreases b.len() - p,
{
    if p < 0 || p >= b.len() {
        Some(st)
    } else {
        match parse_record(b, p) {
            None => None,
            Some((shape, e)) => if e <= p {
                None
            } else {
                replayed(apply_shape(st, id, p, e, shape), id, b, e)
            },
        }
    }
}

/// The index and dead bytes that replaying the segments `segs`, each an id
/// with its bytes, in order from an empty store gives; `None` where a
/// segment is not a run of records.
pub open spec fn recovered(segs: Seq<(u64, Vec<u8>)>) -> Option<(Map<Seq<char>, KvEntry>, u64)>
    decreases segs.len(),
{
    if segs.len() == 0 {
        Some((Map::empty(), 0))
    } else {
        match recovered(segs.drop_last()) {
            None => None,
            Some(st) => replayed(st, segs.last().0, segs.last().1@, 0),
        }
    }
}

/// The records of segment `id`, whose bytes are `b`, from position `p` on,
/// as the log model sees them: each with its place and its decoded strings.
pub open spec fn segment_log(id: u64, b: Seq<u8>, p: int) -> Seq<LogRecord>
    decreases b.len() - p,
{
    if p < 0 || p >= b.len() {
        Seq::empty()
    } else {
        match parse_record(b, p) {
            None => Seq::empty(),
            Some((shape, e)) => if e <= p {
                Seq::empty()
            } else {
                let op = match shape {
                    RecordShape::SetShape { key, value } => Op::Assign {
                        key: json_text_of(key),
                        value: json_text_of(value),
                    },
                    RecordShape::RmShape { key } => Op::Erase { key: json_text_of(key) },
                };
                seq![LogRecord { file_id: id, pos: p as u64, len: (e - p) as u64, op }]
                    + segment_log(id, b, e)
            },
        }
    }
}

/// Replaying a segment over the index that a log builds gives the index that
/// the log followed by the segment's records builds: recovery obeys the laws
/// of the log model.
pub proof fn lemma_replayed_is_index_after(
    log: Seq<LogRecord>,
    dead: u64,
    id: u64,
    b: Seq<u8>,
    p: int,
)
    ensures
        replayed((index_after(log), dead), id, b, p) matches Some((m, d)) ==> m == index_after(
            log + segment_log(id, b, p),
        ),
    decreases b.len() - p,
{
    if p < 0 || p >= b.len() {
        assert(log + segment_log(id, b, p) =~= log);
    } else {
        match parse_record(b, p) {
            None => {},
            Some((shape, e)) => if e > p {
                let st2 = apply_shape((index_after(log), dead), id, p, e, shape);
                let r = segment_log(id, b, p)[0];
                let log2 = log.push(r);
                assert(log2.drop_last() =~= log);
                assert(index_after(log2) == st2.0);
                lemma_replayed_is_index_after(log2, st2.1, id, b, e);
                assert(log2 + segment_log(id, b, e) =~= log + segment_log(id, b, p));
            },
        }
    }
}

proof fn lemma_index_len(ks: Seq<Seq<char>>, es: Seq<KvEntry>)
    requires
        unique_keys(ks),
        ks.len() == es.len(),
    ensures
        index_map(ks, es).len() == ks.len(),
{
    assert(index_map(ks, es).dom() =~= ks.to_set());
    assert(ks.no_duplicates()) by {
        assert forall|i: int, j: int| 0 <= i < ks.len() && 0 <= j < ks.len() && i != j implies ks[i]
            != ks[j] by {
            if i > j {
                assert(ks[j] != ks[i]);
            }
        }
    }
    ks.unique_seq_to_set();
}

impl KvStore {
    /// The index: each key with the location of its authoritative record.
    pub closed spec fn index(&self) -> Map<Seq<char>, KvEntry> {
        index_map(key_views(self.keys@), self.entries@)
    }

    /// The segment that takes appends.
    pub closed spec fn active_id(&self) -> u64 {
        self.current_file_id
    }

    /// The size of the active segment: where the next record goes.
    pub closed spec fn active_offset(&self) -> u64 {
        self.current_file_offset
    }

    /// Bytes on disk that compaction can reclaim; the count stops at
    /// `u64::MAX` rather than wrap.
    pub closed spec fn dead_bytes(&self) -> u64 {
        self.redundant_data_sz
    }

    /// The sum of the record lengths that the index points at.
    pub closed spec fn live_bytes(&self) -> int {
        sizes_sum(self.entries@)
    }

    /// `live_bytes` is the sum of the record lengths of a listing of the
    /// index's entries: one per key, and nothing else.
    pub proof fn lemma_live_bytes(&self)
        requires
            self.wf(),
        ensures
            exists|es: Seq<KvEntry>|
                {
                    &&& es.len() == self.index().len()
                    &&& sizes_sum(es) == self.live_bytes()
                    &&& forall|k: Seq<char>| #[trigger]
                        self.index().contains_key(k) ==> exists|i: int|
                            0 <= i < es.len() && es[i] == self.index()[k]
                    &&& forall|i: int|
                        #![trigger es[i]]
                        0 <= i < es.len() ==> exists|k: Seq<char>|
                            #![trigger self.index().contains_key(k)]
                            self.index().contains_key(k) && self.index()[k] == es[i]
                },
    {
        let ks = key_views(self.keys@);
        let es = self.entries@;
        lemma_index_map(ks, es);
        lemma_index_len(ks, es);
        assert forall|k: Seq<char>| #[trigger] self.index().contains_key(k) implies exists|i: int|
            0 <= i < es.len() && es[i] == self.index()[k] by {
            let j = choose|j: int| 0 <= j < ks.len() && ks[j] == k;
            assert(es[j] == self.index()[ks[j]]);
        }
        assert forall|i: int| #![trigger es[i]] 0 <= i < es.len() implies exists|k: Seq<char>|
            #![trigger self.index().contains_key(k)]
            self.index().contains_key(k) && self.index()[k] == es[i] by {
            assert(self.index().contains_key(ks[i]));
        }
    }

    /// The index holds distinct keys.
    pub closed spec fn wf(&self) -> bool {
        &&& self.keys@.len() == self.entries@.len()
        &&& unique_keys(key_views(self.keys@))
    }

    /// A store with nothing in it, on segment 0, ready for a recovery replay.
    pub fn new() -> (r: KvStore)
        ensures
            r.wf(),
            r.index() == Map::<Seq<char>, KvEntry>::empty(),
            r.active_id() == 0,
            r.active_offset() == 0,
            r.dead_bytes() == 0,
    {
        let r = KvStore {
            keys: Vec::new(),
            entries: Vec::new(),
            current_file_id: 0,
            current_file_offset: 0,
            redundant_data_sz: 0,
        };
        assert(r.index() =~= Map::<Seq<char>, KvEntry>::empty());
        r
    }

    fn find(&self, key: &String) -> (r: Option<usize>)
        requires
            self.wf(),
        ensures
            match r {
                Some(i) => i < self.keys@.len() && self.keys@[i as int]@ == key@,
                None => !self.index().contains_key(key@),
            },
    {
        proof {
            lemma_index_map(key_views(self.keys@), self.entries@);
        }
        let mut i: usize = 0;
        while i < self.keys.len()
            invariant
                self.wf(),
                i <= self.keys@.len(),
                forall|j: int| 0 <= j < i ==> self.keys@[j]@ != key@,
            decreases self.keys@.len() - i,
        {
            if self.keys[i] == *key {
                return Some(i);
            }
            i = i + 1;
        }
        assert(!self.index().contains_key(key@)) by {
            if self.index().contains_key(key@) {
                let j = choose|j: int|
                    0 <= j < key_views(self.keys@).len() && key_views(self.keys@)[j] == key@;
                assert(self.keys@[j]@ == key@);
            }
        }
        None
    }

    /// Points `key` at `e`; gives the entry it replaced.
    fn put_entry(&mut self, key: String, e: KvEntry) -> (r: Option<KvEntry>)
        requires
            old(self).wf(),
        ensures
            final(self).wf(),
            final(self).index() == old(self).index().insert(key@, e),
            match r {
                Some(p) => old(self).index().contains_key(key@) && old(self).index()[key@] == p,
                None => !old(self).index().contains_key(key@),
            },
            final(self).current_file_id == old(self).current_file_id,
            final(self).current_file_offset == old(self).current_file_offset,
            final(self).redundant_data_sz == old(self).redundant_data_sz,
    {
        let ghost ks = key_views(self.keys@);
        let ghost es = self.entries@;
        proof {
            lemma_index_map(ks, es);
        }
        match self.find(&key) {
            Some(i) => {
                let p = self.entries[i];
                self.entries.set(i, e);
                proof {
                    let ks2 = key_views(self.keys@);
                    assert(ks2 =~= ks);
                    lemma_index_map(ks2, self.entries@);
                    assert(ks[i as int] == key@);
                    let m = old(self).index().insert(key@, e);
                    assert forall|k: Seq<char>| #[trigger] self.index().contains_key(k) == m.contains_key(k)
                        && (m.contains_key(k) ==> self.index()[k] == m[k]) by {
                        if m.contains_key(k) && k != key@ {
                            let j = choose|j: int| 0 <= j < ks.len() && ks[j] == k;
                            assert(ks2[j] == k);
                        }
                    }
                    assert(self.index() =~= m);
                }
                Some(p)
            },
            None => {
                self.keys.push(key);
                self.entries.push(e);
                proof {
                    let ks2 = key_views(self.keys@);
                    assert(ks2 =~= ks.push(key@));
                    assert(unique_keys(ks2)) by {
                        assert forall|i: int, j: int| 0 <= i < j < ks2.len() implies ks2[i] != ks2[j] by {
                            if j == ks.len() {
                                assert(ks[i] == ks2[i]);
                            }
                        }
                    }
                    lemma_index_map(ks2, self.entries@);
                    assert(ks2[ks.len() as int] == key@);
                    let m = old(self).index().insert(key@, e);
                    assert forall|k: Seq<char>| #[trigger] self.index().contains_key(k) == m.contains_key(k)
                        && (m.contains_key(k) ==> self.index()[k] == m[k]) by {
                        if m.contains_key(k) && k != key@ {
                            let j = choose|j: int| 0 <= j < ks.len() && ks[j] == k;
                            assert(ks2[j] == k);
                        }
                        if self.index().contains_key(k) && k != key@ {
                            let j = choose|j: int| 0 <= j < ks2.len() && ks2[j] == k;
                            assert(ks[j] == k);
                        }
                    }
                    assert(self.index() =~= m);
                }
                None
            },
        }
    }

    /// Drops `key` from the index; gives the entry it had.
    fn take_entry(&mut self, key: &String) -> (r: Option<KvEntry>)
        requires
            old(self).wf(),
        ensures
            final(self).wf(),
            final(self).index() == old(self).index().remove(key@),
            match r {
                Some(p) => old(self).index().contains_key(key@) && old(self).index()[key@] == p,
                None => !old(self).index().contains_key(key@),
            },
            final(self).current_file_id == old(self).current_file_id,
            final(self).current_file_offset == old(self).current_file_offset,
            final(self).redundant_data_sz == old(self).redundant_data_sz,
    {
        let ghost ks = key_views(self.keys@);
        let ghost es = self.entries@;
        proof {
            lemma_index_map(ks, es);
        }
        match self.find(key) {
            Some(i) => {
                let p = self.entries[i];
                self.keys.remove(i);
                self.entries.remove(i);
                proof {
                    let ks2 = key_views(self.keys@);
                    assert(ks2 =~= ks.remove(i as int));
                    assert(ks[i as int] == key@);
                    assert(unique_keys(ks2)) by {
                        assert forall|a: int, b: int| 0 <= a < b < ks2.len() implies ks2[a] != ks2[b] by {
                            if a < i && b >= i {
                                assert(ks2[b] == ks[b + 1]);
                            } else if a >= i {
                                assert(ks2[a] == ks[a + 1] && ks2[b] == ks[b + 1]);
                            }
                        }
                    }
                    lemma_index_map(ks2, self.entries@);
                    let m = old(self).index().remove(key@);
                    assert forall|k: Seq<char>| #[trigger] self.index().contains_key(k) == m.contains_key(k)
                        && (m.contains_key(k) ==> self.index()[k] == m[k]) by {
                        if m.contains_key(k) {
                            let j = choose|j: int| 0 <= j < ks.len() && ks[j] == k;
                            assert(j != i);
                            if j < i {
                                assert(ks2[j] == k);
                            } else {
                                assert(ks2[j - 1] == k);
                            }
                        }
                        if self.index().contains_key(k) {
                            let j = choose|j: int| 0 <= j < ks2.len() && ks2[j] == k;
                            if j < i {
                                assert(ks[j] == k);
                            } else {
                                assert(ks[j + 1] == k);
                            }
                        }
                    }
                    assert(self.index() =~= m);
                }
                Some(p)
            },
            None => {
                assert(self.index() =~= old(self).index().remove(key@));
                None
            },
        }
    }

    /// The segment that takes appends.
    pub fn active_segment(&self) -> (r: u64)
        ensures
            r == self.active_id(),
    {
        self.current_file_id
    }

    /// The size of the active segment.
    pub fn active_len(&self) -> (r: u64)
        ensures
            r == self.active_offset(),
    {
        self.current_file_offset
    }

    /// Bytes on disk that compaction can reclaim.
    pub fn dead(&self) -> (r: u64)
        ensures
            r == self.dead_bytes(),
    {
        self.redundant_data_sz
    }

    /// Records that a `Set` record of `key`, `record_len` bytes long, was
    /// appended to the active segment. The key now points at it, and the
    /// record it replaces, if any, counts as dead. Returns whether the dead
    /// bytes now call for a compaction.
    pub fn set(&mut self, key: String, record_len: u64) -> (r: bool)
        requires
            old(self).wf(),
            old(self).active_offset() + record_len <= u64::MAX,
        ensures
            final(self).wf(),
            final(self).index() == old(self).index().insert(
                key@,
                (KvEntry {
                    file_id: old(self).active_id(),
                    value_sz: record_len,
                    value_pos: old(self).active_offset(),
                }),
            ),
            final(self).dead_bytes() == if old(self).index().contains_key(key@) {
                sat_add(old(self).dead_bytes(), old(self).index()[key@].value_sz)
            } else {
                old(self).dead_bytes()
            },
            final(self).active_id() == old(self).active_id(),
            final(self).active_offset() == old(self).active_offset() + record_len,
            r == (final(self).dead_bytes() > COMPACTION_THRESHOLD),
    {
        let e = KvEntry {
            file_id: self.current_file_id,
            value_sz: record_len,
            value_pos: self.current_file_offset,
        };
        match self.put_entry(key, e) {
            Some(p) => {
                self.redundant_data_sz = saturating_add(self.redundant_data_sz, p.value_sz);
            },
            None => {},
        }
        self.current_file_offset = self.current_file_offset + record_len;
        self.redundant_data_sz > COMPACTION_THRESHOLD
    }

    /// Records that a `Remove` record of `key`, `record_len` bytes long, was
    /// appended to the active segment: the key leaves the index, and both
    /// its record and the `Remove` record count as dead. Fails with
    /// `KeyNotFound`, changing nothing, where the index lacks the key. Returns
    /// whether the dead bytes now call for a compaction.
    pub fn remove(&mut self, key: &String, record_len: u64) -> (r: Result<bool>)
        requires
            old(self).wf(),
            old(self).index().contains_key(key@) ==> old(self).active_offset() + record_len
                <= u64::MAX,
        ensures
            final(self).wf(),
            !old(self).index().contains_key(key@) ==> (r matches Err(KvErr::KeyNotFound)),
            !old(self).index().contains_key(key@) ==> *final(self) == *old(self),
            old(self).index().contains_key(key@) ==> {
                &&& final(self).index() == old(self).index().remove(key@)
                &&& final(self).dead_bytes() == sat_add(
                    sat_add(old(self).dead_bytes(), record_len),
                    old(self).index()[key@].value_sz,
                )
                &&& final(self).active_id() == old(self).active_id()
                &&& final(self).active_offset() == old(self).active_offset() + record_len
                &&& r == Ok::<bool, KvErr>(final(self).dead_bytes() > COMPACTION_THRESHOLD)
            },
    {
        if self.get(key).is_none() {
            return Err(KvErr::KeyNotFound);
        }
        match self.take_entry(key) {
            Some(p) => {
                self.current_file_offset = self.current_file_offset + record_len;
                self.redundant_data_sz = saturating_add(self.redundant_data_sz, record_len);
                self.redundant_data_sz = saturating_add(self.redundant_data_sz, p.value_sz);
                Ok(self.redundant_data_sz > COMPACTION_THRESHOLD)
            },
            None => Err(KvErr::KeyNotFound),
        }
    }

    /// One step of the recovery replay: the record `cmd` was found in
    /// segment `file_id` at bytes `[before, after)`. A `Set` points its key
    /// there and makes the record it replaces dead; a `Remove` drops its key,
    /// whose record becomes dead, and is itself dead.
    pub fn replay(&mut self, file_id: u64, before: u64, after: u64, cmd: &Commands)
        requires
            old(self).wf(),
            before <= after,
        ensures
            final(self).wf(),
            final(self).active_id() == old(self).active_id(),
            final(self).active_offset() == old(self).active_offset(),
            match cmd {
                Commands::Put { key, value } => {
                    &&& final(self).index() == old(self).index().insert(
                        key@,
                        (KvEntry { file_id, value_sz: (after - before) as u64, value_pos: before }),
                    )
                    &&& final(self).dead_bytes() == if old(self).index().contains_key(key@) {
                        sat_add(old(self).dead_bytes(), old(self).index()[key@].value_sz)
                    } else {
                        old(self).dead_bytes()
                    }
                },
                Commands::Rm { key } => {
                    &&& final(self).index() == old(self).index().remove(key@)
                    &&& final(self).dead_bytes() == if old(self).index().contains_key(key@) {
                        sat_add(
                            sat_add(old(self).dead_bytes(), old(self).index()[key@].value_sz),
                            (after - before) as u64,
                        )
                    } else {
                        sat_add(old(self).dead_bytes(), (after - before) as u64)
                    }
                },
                Commands::Get { .. } => *final(self) == *old(self),
            },
    {
        match cmd {
            Commands::Put { key, value: _ } => {
                let e = KvEntry { file_id, value_sz: after - before, value_pos: before };
                match self.put_entry(key.clone(), e) {
                    Some(p) => {
                        self.redundant_data_sz = saturating_add(self.redundant_data_sz, p.value_sz);
                    },
                    None => {},
                }
            },
            Commands::Rm { key } => {
                match self.take_entry(key) {
                    Some(p) => {
                        self.redundant_data_sz = saturating_add(self.redundant_data_sz, p.value_sz);
                    },
                    None => {},
                }
                self.redundant_data_sz = saturating_add(self.redundant_data_sz, after - before);
            },
            Commands::Get { .. } => {},
        }
    }

    /// Replays every record of segment `id`, whose bytes are `b`, in order.
    /// Fails with `Corrupt` where the bytes are not a run of records, and with
    /// `SerializeErr` where a string of a record does not decode.
    pub fn replay_segment(&mut self, id: u64, b: &[u8]) -> (r: Result<()>)
        requires
            old(self).wf(),
        ensures
            final(self).wf(),
            final(self).active_id() == old(self).active_id(),
            final(self).active_offset() == old(self).active_offset(),
            r is Ok ==> replayed((old(self).index(), old(self).dead_bytes()), id, b@, 0) == Some(
                (final(self).index(), final(self).dead_bytes()),
            ),
            replayed((old(self).index(), old(self).dead_bytes()), id, b@, 0) is None ==> r is Err,
            r is Err ==> r->Err_0 is Corrupt || r->Err_0 is SerializeErr,
            readable(b@, 0) ==> r is Ok,
    {
        let mut pos: usize = 0;
        while pos < b.len()
            invariant
                self.wf(),
                self.active_id() == old(self).active_id(),
                self.active_offset() == old(self).active_offset(),
                pos <= b@.len(),
                replayed((old(self).index(), old(self).dead_bytes()), id, b@, 0) == replayed(
                    (self.index(), self.dead_bytes()),
                    id,
                    b@,
                    pos as int,
                ),
                readable(b@, 0) ==> readable(b@, pos as int),
            decreases b@.len() - pos,
        {
            proof {
                if readable(b@, pos as int) {
                    let (shape, e) = parse_record(b@, pos as int)->Some_0;
                    match shape {
                        RecordShape::SetShape { key, value } => {
                            let x = choose|x: Seq<char>| json_of(x) == key;
                            let y = choose|y: Seq<char>| json_of(y) == value;
                            assert(decodes_set(b@, pos as int, x, y));
                        },
                        RecordShape::RmShape { key } => {
                            let x = choose|x: Seq<char>| json_of(x) == key;
                            assert(decodes_rm(b@, pos as int, x));
                        },
                    }
                }
            }
            let (cmd, end) = match decode_record(b, pos) {
                Ok(x) => x,
                Err(e) => return Err(e),
            };
            if end <= pos {
                return Err(KvErr::Corrupt);
            }
            proof {
                crate::codec::lemma_parse_end(b@, pos as int);
            }
            let ghost st = (self.index(), self.dead_bytes());
            self.replay(id, pos as u64, end as u64, &cmd);
            proof {
                let (shape, e) = parse_record(b@, pos as int)->Some_0;
                assert(apply_shape(st, id, pos as int, e, shape) == (self.index(), self.dead_bytes()));
            }
            pos = end;
        }
        Ok(())
    }

    /// Rebuilds the index and the dead bytes from the segments of a store,
    /// each an id with its bytes, in ascending id order. The result depends
    /// on those bytes alone: recovering the same segments twice gives the same
    /// index.
    pub fn recover(segments: &Vec<(u64, Vec<u8>)>) -> (r: Result<KvStore>)
        ensures
            r matches Ok(s) ==> s.wf() && recovered(segments@) == Some((s.index(), s.dead_bytes())),
            r matches Ok(s) ==> s.active_id() == 0 && s.active_offset() == 0,
            r is Err ==> r->Err_0 is Corrupt || r->Err_0 is SerializeErr,
            (forall|i: int| 0 <= i < segments@.len() ==> readable(#[trigger] segments@[i].1@, 0))
                ==> r is Ok,
    {
        let mut s = KvStore::new();
        let mut i: usize = 0;
        proof {
            assert(index_map(Seq::empty(), Seq::empty()) =~= Map::<Seq<char>, KvEntry>::empty());
        }
        while i < segments.len()
            invariant
                s.wf(),
                s.active_id() == 0,
                s.active_offset() == 0,
                i <= segments@.len(),
                recovered(segments@.take(i as int)) == Some((s.index(), s.dead_bytes())),
            decreases segments@.len() - i,
        {
            let (id, bytes) = &segments[i];
            proof {
                assert(segments@.take(i + 1).drop_last() =~= segments@.take(i as int));
                assert(segments@.take(i + 1).last() == segments@[i as int]);
            }
            match s.replay_segment(*id, bytes.as_slice()) {
                Ok(()) => {},
                Err(e) => return Err(e),
            }
            i = i + 1;
        }
        proof {
            assert(segments@.take(segments@.len() as int) =~= segments@);
        }
        Ok(s)
    }

    /// Ends the recovery replay over the segments `segment_ids`: appends go
    /// to a fresh segment, one past the largest id, or segment 0 where there
    /// is none. Returns whether the dead bytes call for a compaction.
    pub fn open(&mut self, segment_ids: &Vec<u64>) -> (r: bool)
        requires
            old(self).wf(),
            forall|i: int| 0 <= i < segment_ids@.len() ==> segment_ids@[i] < u64::MAX,
        ensures
            final(self).wf(),
            final(self).index() == old(self).index(),
            final(self).dead_bytes() == old(self).dead_bytes(),
            final(self).active_offset() == 0,
            segment_ids@.len() == 0 ==> final(self).active_id() == 0,
            segment_ids@.len() > 0 ==> exists|i: int|
                0 <= i < segment_ids@.len() && final(self).active_id() == segment_ids@[i] + 1,
            forall|i: int| 0 <= i < segment_ids@.len() ==> segment_ids@[i] < final(self).active_id(),
            r == (final(self).dead_bytes() > COMPACTION_THRESHOLD),
    {
        let mut next: u64 = 0;
        let mut i: usize = 0;
        while i < segment_ids.len()
            invariant
                i <= segment_ids@.len(),
                forall|j: int| 0 <= j < segment_ids@.len() ==> segment_ids@[j] < u64::MAX,
                forall|j: int| 0 <= j < i ==> segment_ids@[j] < next,
                i == 0 ==> next == 0,
                i > 0 ==> exists|j: int| 0 <= j < i && next == segment_ids@[j] + 1,
            decreases segment_ids@.len() - i,
        {
            if segment_ids[i] >= next {
                next = segment_ids[i] + 1;
            }
            i = i + 1;
        }
        self.current_file_id = next;
        self.current_file_offset = 0;
        self.redundant_data_sz > COMPACTION_THRESHOLD
    }

    /// Compacts the index onto segment `n`, one past the active one: the
    /// returned plan lists the records to copy to `n`, back to back in its
    /// order, and each key now points at its copy. Appends go on to segment
    /// `n + 1`, empty, and no byte is dead. Gives `None`, changing nothing,
    /// where the ids or the copied bytes would not fit in `u64`.
    pub fn compact(&mut self) -> (r: Option<(u64, Vec<KvEntry>)>)
        requires
            old(self).wf(),
        ensures
            final(self).wf(),
            r is None <==> (old(self).active_id() > u64::MAX - 2 || old(self).live_bytes()
                > u64::MAX),
            r is None ==> *final(self) == *old(self),
            r matches Some((n, plan)) ==> {
                &&& n == old(self).active_id() + 1
                &&& final(self).active_id() == n + 1
                &&& final(self).active_offset() == 0
                &&& final(self).dead_bytes() == 0
                &&& final(self).index().dom() == old(self).index().dom()
                &&& sizes_sum(plan@) == old(self).live_bytes()
                &&& plan@.len() == old(self).index().len()
                &&& forall|k: Seq<char>| #[trigger]
                    old(self).index().contains_key(k) ==> exists|i: int|
                        0 <= i < plan@.len() && plan@[i] == old(self).index()[k]
                            && final(self).index()[k] == (KvEntry {
                            file_id: n,
                            value_sz: plan@[i].value_sz,
                            value_pos: sizes_sum(plan@.take(i)) as u64,
                        })
                &&& forall|i: int|
                    #![trigger plan@[i]]
                    0 <= i < plan@.len() ==> exists|k: Seq<char>|
                        #![trigger old(self).index().contains_key(k)]
                        old(self).index().contains_key(k) && old(self).index()[k] == plan@[i]
            },
    {
        if self.current_file_id > u64::MAX - 2 {
            return None;
        }
        let n = self.current_file_id + 1;
        let ghost es = self.entries@;
        let ghost ks = key_views(self.keys@);
        let (moved, plan) = match relocate(&self.entries, n) {
            Some(p) => p,
            None => return None,
        };
        self.entries = moved;
        self.current_file_id = n + 1;
        self.current_file_offset = 0;
        self.redundant_data_sz = 0;
        proof {
            lemma_compacted(ks, es, self.entries@, n);
            assert(key_views(self.keys@) == ks);
            assert(self.index() == index_map(ks, self.entries@));
            assert(old(self).index() == index_map(ks, es));
            lemma_index_len(ks, es);
            assert forall|i: int| #![trigger plan@[i]] 0 <= i < plan@.len() implies exists|k: Seq<char>|
                #![trigger old(self).index().contains_key(k)]
                old(self).index().contains_key(k) && old(self).index()[k] == plan@[i] by {
                assert(old(self).index().contains_key(ks[i]));
            }
        }
        Some((n, plan))
    }

    /// The location of the record that holds the value of `key`, if any.
    pub fn get(&self, key: &String) -> (r: Option<KvEntry>)
        requires
            self.wf(),
        ensures
            match r {
                Some(e) => self.index().contains_key(key@) && self.index()[key@] == e,
                None => !self.index().contains_key(key@),
            },
    {
        proof {
            lemma_index_map(key_views(self.keys@), self.entries@);
        }
        match self.find(key) {
            Some(i) => {
                assert(key_views(self.keys@)[i as int] == key@);
                Some(self.entries[i])
            },
            None => None,
        }
    }
}

} // verus!
