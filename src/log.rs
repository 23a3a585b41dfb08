//! A model of the log as the sequence of its records, oldest first, and the
//! laws that tie the index to the values the log holds.
use crate::kv::KvEntry;
use vstd::prelude::*;

verus! {

/// What a record of the log does.
pub enum Op {
    /// Sets `key` to `value`.
    Assign { key: Seq<char>, value: Seq<char> },
    /// Removes `key`.
    Erase { key: Seq<char> },
}

/// A record of the log, with the place it takes.
pub struct LogRecord {
    pub file_id: u64,
    pub pos: u64,
    pub len: u64,
    pub op: Op,
}

/// The index entry that points at `r`.
pub open spec fn entry_of(r: LogRecord) -> KvEntry {
    KvEntry { file_id: r.file_id, value_sz: r.len, value_pos: r.pos }
}

/// The index that replaying `log` in order builds, as `set`, `remove` and
/// the recovery replay change it.
pub open spec fn index_after(log: Seq<LogRecord>) -> Map<Seq<char>, KvEntry>
    decreases log.len(),
{
    if log.len() == 0 {
        Map::empty()
    } else {
        let idx = index_after(log.drop_last());
        match log.last().op {
            Op::Assign { key, value } => idx.insert(key, entry_of(log.last())),
            Op::Erase { key } => idx.remove(key),
        }
    }
}

/// Appending one record changes the index as `KvStore::set` (for a set) and
/// `KvStore::remove` (for a remove) state it: the key points at the new
/// record, or leaves the index.
pub proof fn lemma_log_step(log: Seq<LogRecord>, r: LogRecord)
    ensures
        r.op matches Op::Assign { key, value } ==> index_after(log.push(r)) == index_after(log).insert(
            key,
            entry_of(r),
        ),
        r.op matches Op::Erase { key } ==> index_after(log.push(r)) == index_after(log).remove(key),
{
    assert(log.push(r).drop_last() =~= log);
}

/// The key-value mapping that the operations of `log` produce.
pub open spec fn mapping_after(log: Seq<LogRecord>) -> Map<Seq<char>, Seq<char>>
    decreases log.len(),
{
    if log.len() == 0 {
        Map::empty()
    } else {
        let m = mapping_after(log.drop_last());
        match log.last().op {
            Op::Assign { key, value } => m.insert(key, value),
            Op::Erase { key } => m.remove(key),
        }
    }
}

/// The key that `r` sets or removes.
pub open spec fn key_of(r: LogRecord) -> Seq<char> {
    match r.op {
        Op::Assign { key, value } => key,
        Op::Erase { key } => key,
    }
}

/// Some record of `log` sets or removes `k`.
pub open spec fn touches(log: Seq<LogRecord>, k: Seq<char>) -> bool {
    exists|j: int| 0 <= j < log.len() && key_of(#[trigger] log[j]) == k
}

/// Replaying `log` after any earlier records decides each key it touches as
/// replaying it alone does, and leaves the others as they were.
proof fn lemma_replay_after(a: Seq<LogRecord>, log: Seq<LogRecord>, k: Seq<char>)
    ensures
        touches(log, k) ==> index_after(a + log).contains_key(k) == index_after(log).contains_key(k)
            && (index_after(log).contains_key(k) ==> index_after(a + log)[k] == index_after(log)[k]),
        !touches(log, k) ==> index_after(a + log).contains_key(k) == index_after(a).contains_key(k)
            && (index_after(a).contains_key(k) ==> index_after(a + log)[k] == index_after(a)[k]),
        !touches(log, k) ==> !index_after(log).contains_key(k),
    decreases log.len(),
{
    if log.len() == 0 {
        assert(a + log =~= a);
    } else {
        let prev = log.drop_last();
        lemma_replay_after(a, prev, k);
        assert((a + log).drop_last() =~= a + prev);
        assert((a + log).last() == log.last());
        let last = log.last();
        assert(log[log.len() - 1] == last);
        if key_of(last) != k {
            if touches(log, k) {
                let j = choose|j: int| 0 <= j < log.len() && key_of(#[trigger] log[j]) == k;
                assert(prev[j] == log[j]);
            }
            if touches(prev, k) {
                let j = choose|j: int| 0 <= j < prev.len() && key_of(#[trigger] prev[j]) == k;
                assert(log[j] == prev[j]);
            }
        }
    }
}

proof fn lemma_mapping_replay_after(a: Seq<LogRecord>, log: Seq<LogRecord>, k: Seq<char>)
    ensures
        touches(log, k) ==> mapping_after(a + log).contains_key(k) == mapping_after(log).contains_key(
            k,
        ) && (mapping_after(log).contains_key(k) ==> mapping_after(a + log)[k] == mapping_after(
            log,
        )[k]),
        !touches(log, k) ==> mapping_after(a + log).contains_key(k) == mapping_after(a).contains_key(k)
            && (mapping_after(a).contains_key(k) ==> mapping_after(a + log)[k] == mapping_after(a)[k]),
        !touches(log, k) ==> !mapping_after(log).contains_key(k),
    decreases log.len(),
{
    if log.len() == 0 {
        assert(a + log =~= a);
    } else {
        let prev = log.drop_last();
        lemma_mapping_replay_after(a, prev, k);
        assert((a + log).drop_last() =~= a + prev);
        assert((a + log).last() == log.last());
        let last = log.last();
        assert(log[log.len() - 1] == last);
        if key_of(last) != k {
            if touches(log, k) {
                let j = choose|j: int| 0 <= j < log.len() && key_of(#[trigger] log[j]) == k;
                assert(prev[j] == log[j]);
            }
            if touches(prev, k) {
                let j = choose|j: int| 0 <= j < prev.len() && key_of(#[trigger] prev[j]) == k;
                assert(log[j] == prev[j]);
            }
        }
    }
}

/// Replaying a log on top of the index it built changes nothing: applying
/// the same records a second time rebuilds the same index and the same
/// mapping.
pub proof fn lemma_replay_idempotent(log: Seq<LogRecord>)
    ensures
        index_after(log + log) == index_after(log),
        mapping_after(log + log) == mapping_after(log),
{
    assert forall|k: Seq<char>| #[trigger] index_after(log + log).contains_key(k)
        == index_after(log).contains_key(k) && (index_after(log).contains_key(k) ==> index_after(
        log + log,
    )[k] == index_after(log)[k]) by {
        lemma_replay_after(log, log, k);
    }
    assert(index_after(log + log) =~= index_after(log));
    assert forall|k: Seq<char>| #[trigger] mapping_after(log + log).contains_key(k)
        == mapping_after(log).contains_key(k) && (mapping_after(log).contains_key(k)
        ==> mapping_after(log + log)[k] == mapping_after(log)[k]) by {
        lemma_mapping_replay_after(log, log, k);
    }
    assert(mapping_after(log + log) =~= mapping_after(log));
}

/// `r` sets a key of `m` to the value that `m` gives it.
pub open spec fn agrees_with(r: LogRecord, m: Map<Seq<char>, Seq<char>>) -> bool {
    r.op matches Op::Assign { key, value } && m.contains_key(key) && m[key] == value
}

/// After any sequence of records, the index holds exactly the keys that the
/// operations leave set, and each key points at a record of the log that
/// sets it to the value of the latest `set` not followed by a `remove`: a
/// read at the index's location gives that value. Recovery rebuilds this
/// index from the same records, so a reopened store shows the same mapping.
pub proof fn lemma_index_locates_latest_value(log: Seq<LogRecord>)
    ensures
        index_after(log).dom() == mapping_after(log).dom(),
        forall|k: Seq<char>| #[trigger]
            index_after(log).contains_key(k) ==> exists|j: int|
                0 <= j < log.len() && entry_of(log[j]) == index_after(log)[k] && log[j].op == (
                Op::Assign { key: k, value: mapping_after(log)[k] }),
    decreases log.len(),
{
    if log.len() > 0 {
        let prev = log.drop_last();
        lemma_index_locates_latest_value(prev);
        let idx = index_after(log);
        let m = mapping_after(log);
        assert forall|k: Seq<char>| #[trigger] idx.contains_key(k) implies exists|j: int|
            0 <= j < log.len() && entry_of(log[j]) == idx[k] && log[j].op == (Op::Assign {
                key: k,
                value: m[k],
            }) by {
            match log.last().op {
                Op::Assign { key, value } => {
                    if k == key {
                        assert(log[log.len() - 1] == log.last());
                    } else {
                        let j = choose|j: int|
                            0 <= j < prev.len() && entry_of(prev[j]) == index_after(prev)[k]
                                && prev[j].op == (Op::Assign {
                                key: k,
                                value: mapping_after(prev)[k],
                            });
                        assert(log[j] == prev[j]);
                    }
                },
                Op::Erase { key } => {
                    let j = choose|j: int|
                        0 <= j < prev.len() && entry_of(prev[j]) == index_after(prev)[k]
                            && prev[j].op == (Op::Assign { key: k, value: mapping_after(prev)[k] });
                    assert(log[j] == prev[j]);
                },
            }
        }
        assert(idx.dom() =~= m.dom());
    } else {
        assert(index_after(log).dom() =~= mapping_after(log).dom());
    }
}

/// Records that each set a key of `m` to its value in `m` build a mapping
/// that agrees with `m` on every key it holds, and holds the keys they set.
proof fn lemma_agreeing_records(extra: Seq<LogRecord>, m: Map<Seq<char>, Seq<char>>)
    requires
        forall|j: int| 0 <= j < extra.len() ==> agrees_with(#[trigger] extra[j], m),
    ensures
        forall|k: Seq<char>| #[trigger]
            mapping_after(extra).contains_key(k) <==> exists|j: int|
                0 <= j < extra.len() && extra[j].op->Assign_key == k,
        forall|k: Seq<char>| #[trigger]
            mapping_after(extra).contains_key(k) ==> m.contains_key(k) && mapping_after(extra)[k]
                == m[k],
    decreases extra.len(),
{
    if extra.len() > 0 {
        let prev = extra.drop_last();
        assert forall|j: int| 0 <= j < prev.len() implies agrees_with(#[trigger] prev[j], m) by {
            assert(prev[j] == extra[j]);
        }
        lemma_agreeing_records(prev, m);
        assert(agrees_with(extra[extra.len() - 1], m));
        assert(extra.last() == extra[extra.len() - 1]);
        let lk = extra.last().op->Assign_key;
        assert(mapping_after(extra) == mapping_after(prev).insert(lk, extra.last().op->Assign_value));
        assert forall|k: Seq<char>| #[trigger]
            mapping_after(extra).contains_key(k) <==> exists|j: int|
                0 <= j < extra.len() && extra[j].op->Assign_key == k by {
            if mapping_after(extra).contains_key(k) && k != lk {
                assert(mapping_after(prev).contains_key(k));
                let j = choose|j: int| 0 <= j < prev.len() && prev[j].op->Assign_key == k;
                assert(extra[j] == prev[j]);
            }
            if exists|j: int| 0 <= j < extra.len() && extra[j].op->Assign_key == k {
                let j = choose|j: int| 0 <= j < extra.len() && extra[j].op->Assign_key == k;
                if j < prev.len() {
                    assert(prev[j] == extra[j]);
                    assert(mapping_after(prev).contains_key(k));
                }
            }
        }
        assert forall|k: Seq<char>| #[trigger] mapping_after(extra).contains_key(k) implies m.contains_key(k)
            && mapping_after(extra)[k] == m[k] by {
            if k != lk {
                assert(mapping_after(prev).contains_key(k));
            }
        }
    }
}

/// A crash in the middle of a compaction leaves the log followed by copies
/// of some of its live records; replaying that log gives the mapping that the
/// log alone gives.
pub proof fn lemma_partial_compaction_keeps_mapping(log: Seq<LogRecord>, copies: Seq<LogRecord>)
    requires
        forall|j: int| 0 <= j < copies.len() ==> agrees_with(#[trigger] copies[j], mapping_after(log)),
    ensures
        mapping_after(log + copies) == mapping_after(log),
    decreases copies.len(),
{
    if copies.len() > 0 {
        let prev = copies.drop_last();
        assert forall|j: int| 0 <= j < prev.len() implies agrees_with(
            #[trigger] prev[j],
            mapping_after(log),
        ) by {
            assert(prev[j] == copies[j]);
        }
        lemma_partial_compaction_keeps_mapping(log, prev);
        assert((log + copies).drop_last() =~= log + prev);
        assert(agrees_with(copies[copies.len() - 1], mapping_after(log)));
        assert((log + copies).last() == copies.last());
        assert(mapping_after(log + copies) =~= mapping_after(log));
    } else {
        assert(log + copies =~= log);
    }
}

/// A compaction that copies each live record of the log to the new segment
/// and then deletes every older segment leaves a log whose mapping is the
/// mapping before the compaction.
pub proof fn lemma_compaction_keeps_mapping(log: Seq<LogRecord>, copies: Seq<LogRecord>)
    requires
        forall|j: int| 0 <= j < copies.len() ==> agrees_with(#[trigger] copies[j], mapping_after(log)),
        forall|k: Seq<char>| #[trigger]
            mapping_after(log).contains_key(k) ==> exists|j: int|
                0 <= j < copies.len() && copies[j].op->Assign_key == k,
    ensures
        mapping_after(copies) == mapping_after(log),
{
    let m = mapping_after(log);
    lemma_agreeing_records(copies, m);
    assert(mapping_after(copies) =~= m);
}

} // verus!
