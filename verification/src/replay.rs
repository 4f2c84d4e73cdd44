//! Replay: what a run of log bytes does to the index.
//!
//! The records of a log are read one after another from its first byte. A
//! `Set` record makes its own place the place of its key, and retires the
//! record that held the key before. An `Rm` record takes the key out, and
//! retires both the record that held it and itself. The bytes of retired
//! records are the stale bytes that compaction wins back.

use crate::error::KvsError;
use crate::cursor::BufReaderWithPos;
use crate::index::{Index, Location, RecordArgs, Slot};
use crate::logdir::{gens_ascend, has_gen, log_of, LogImage};
use crate::record::{
    decode_record, is_record, lemma_record_bounds, lemma_record_moves, record_at, MultipleCmd,
    Record,
};
use vstd::prelude::*;

verus! {

/// The index and the count of stale bytes at some point of a replay.
pub struct ReplayState {
    pub index: Map<Seq<char>, Location>,
    pub stale: int,
}

/// The state before any record: no key, no stale byte.
pub open spec fn fresh() -> ReplayState {
    ReplayState { index: Map::empty(), stale: 0 }
}

/// The state after the record `rec`, which fills the bytes from `pos` to
/// `end` of the log `gen`.
pub open spec fn apply_record(
    st: ReplayState,
    gen: u64,
    pos: int,
    end: int,
    rec: Record,
) -> ReplayState {
    let retired = if st.index.dom().contains(rec.key()) {
        st.index[rec.key()].len
    } else {
        0
    };
    match rec {
        Record::Put { key, .. } => ReplayState {
            index: st.index.insert(key, Location { gen, pos, len: end - pos }),
            stale: st.stale + retired,
        },
        Record::Rm { key } => ReplayState {
            index: st.index.remove(key),
            stale: st.stale + retired + (end - pos),
        },
    }
}

/// The state after the records of the log `gen` from `pos` to its end;
/// `None` where the bytes from `pos` on are not a run of whole records.
pub open spec fn replay_log(st: ReplayState, gen: u64, bytes: Seq<u8>, pos: int) -> Option<
    ReplayState,
>
    decreases bytes.len() - pos,
{
    if pos >= bytes.len() {
        Some(st)
    } else {
        match record_at(bytes, pos) {
            Some((rec, end)) => if pos < end {
                replay_log(apply_record(st, gen, pos, end, rec), gen, bytes, end)
            } else {
                None
            },
            None => None,
        }
    }
}

/// The state after all of `logs`, each from its first byte, in the order of
/// the sequence.
pub open spec fn replay_dir(st: ReplayState, logs: Seq<LogImage>) -> Option<ReplayState>
    decreases logs.len(),
{
    if logs.len() == 0 {
        Some(st)
    } else {
        match replay_dir(st, logs.drop_last()) {
            Some(mid) => replay_log(mid, logs.last().gen, logs.last().bytes, 0),
            None => None,
        }
    }
}

/// The record at the place of `slot` in `bytes` is a `Set` record for the
/// key of `slot`, and fills the place exactly.
pub open spec fn holds_put(bytes: Seq<u8>, slot: Slot) -> bool {
    match record_at(bytes, slot.loc.pos) {
        Some((Record::Put { key, .. }, end)) => key == slot.key && end == slot.loc.pos
            + slot.loc.len,
        _ => false,
    }
}

/// The value of the `Set` record at the place of `slot` in `bytes`.
pub open spec fn value_at(bytes: Seq<u8>, slot: Slot) -> Seq<char> {
    match record_at(bytes, slot.loc.pos) {
        Some((Record::Put { value, .. }, _)) => value,
        _ => Seq::empty(),
    }
}

/// `slot` points at a `Set` record for its key in one of `logs`.
pub open spec fn valid_slot(logs: Seq<LogImage>, slot: Slot) -> bool {
    has_gen(logs, slot.loc.gen) && holds_put(logs[log_of(logs, slot.loc.gen)].bytes, slot)
}

/// The value that `slot` points at in `logs`.
pub open spec fn value_of(logs: Seq<LogImage>, slot: Slot) -> Seq<char> {
    value_at(logs[log_of(logs, slot.loc.gen)].bytes, slot)
}

/// A count of bytes as a `u64` holds it: the count itself, or `u64::MAX`
/// where it is larger.
pub open spec fn clip(n: int) -> u64 {
    if n >= u64::MAX {
        u64::MAX
    } else if n < 0 {
        0
    } else {
        n as u64
    }
}

/// A record appended to a log is replayed after the records that the log
/// held, and leaves their replay as it was.
#[verifier::rlimit(40)]
pub proof fn lemma_replay_append(
    st: ReplayState,
    gen: u64,
    bytes: Seq<u8>,
    pos: int,
    tail: Seq<u8>,
    rec: Record,
)
    requires
        0 <= pos <= bytes.len(),
        replay_log(st, gen, bytes, pos) is Some,
        is_record(tail, rec),
    ensures
        replay_log(st, gen, bytes + tail, pos) == Some(
            apply_record(
                replay_log(st, gen, bytes, pos).unwrap(),
                gen,
                bytes.len() as int,
                (bytes.len() + tail.len()) as int,
                rec,
            ),
        ),
    decreases bytes.len() - pos,
{
    let grown = bytes + tail;
    lemma_record_bounds(tail, 0);
    if pos == bytes.len() {
        assert(grown.subrange(pos, pos + tail.len()) =~= tail.subrange(0, tail.len() as int));
        lemma_record_moves(tail, 0, grown, pos);
        let after = apply_record(st, gen, pos, (pos + tail.len()) as int, rec);
        assert(replay_log(after, gen, grown, pos + tail.len()) == Some(after));
    } else {
        let (r, end) = record_at(bytes, pos).unwrap();
        lemma_record_bounds(bytes, pos);
        assert(grown.subrange(pos, end) =~= bytes.subrange(pos, end));
        lemma_record_moves(bytes, pos, grown, pos);
        lemma_replay_append(apply_record(st, gen, pos, end, r), gen, bytes, end, tail, rec);
    }
}

/// The count of stale bytes that a replay starts from is carried along: it
/// changes neither the index nor what the records add.
pub proof fn lemma_replay_stale_shift(st: ReplayState, gen: u64, bytes: Seq<u8>, pos: int, k: int)
    ensures
        replay_log(ReplayState { index: st.index, stale: st.stale + k }, gen, bytes, pos) == (
        match replay_log(st, gen, bytes, pos) {
            Some(after) => Some(ReplayState { index: after.index, stale: after.stale + k }),
            None => None,
        }),
    decreases bytes.len() - pos,
{
    if pos < bytes.len() {
        match record_at(bytes, pos) {
            Some((rec, end)) => {
                if pos < end {
                    let next = apply_record(st, gen, pos, end, rec);
                    let shifted = apply_record(
                        ReplayState { index: st.index, stale: st.stale + k },
                        gen,
                        pos,
                        end,
                        rec,
                    );
                    assert(shifted == ReplayState { index: next.index, stale: next.stale + k });
                    lemma_replay_stale_shift(next, gen, bytes, end, k);
                }
            },
            None => {},
        }
    }
}

/// Where the first `n` logs cannot be replayed, the whole directory cannot.
pub proof fn lemma_replay_dir_fails(st: ReplayState, logs: Seq<LogImage>, n: int)
    requires
        0 <= n <= logs.len(),
        replay_dir(st, logs.take(n)) is None,
    ensures
        replay_dir(st, logs) is None,
    decreases logs.len() - n,
{
    if n < logs.len() {
        assert(logs.take(n + 1).drop_last() =~= logs.take(n));
        lemma_replay_dir_fails(st, logs, n + 1);
    } else {
        assert(logs.take(n) =~= logs);
    }
}

/// What a valid slot points at: its log is in the directory, its place lies
/// inside the log, and the bytes of the place, taken alone, are a `Set`
/// record for its key.
pub proof fn lemma_slot_chunk(logs: Seq<LogImage>, slot: Slot, at: int)
    requires
        gens_ascend(logs),
        valid_slot(logs, slot),
        0 <= at < logs.len(),
        logs[at].gen == slot.loc.gen,
    ensures
        at == log_of(logs, slot.loc.gen),
        0 <= slot.loc.pos < slot.loc.pos + slot.loc.len <= logs[at].bytes.len(),
        is_record(
            logs[at].bytes.subrange(slot.loc.pos, slot.loc.pos + slot.loc.len),
            Record::Put { key: slot.key, value: value_of(logs, slot) },
        ),
{
    crate::logdir::lemma_files_at(logs, at);
    let bytes = logs[at].bytes;
    let pos = slot.loc.pos;
    let end = pos + slot.loc.len;
    lemma_record_bounds(bytes, pos);
    let chunk = bytes.subrange(pos, end);
    assert(chunk.subrange(0, end - pos) =~= bytes.subrange(pos, end));
    lemma_record_moves(bytes, pos, chunk, 0);
}

/// A `Set` record that a slot points at stays where it is, with its value,
/// when bytes are appended to the last log.
pub proof fn lemma_append_keeps_slot(logs: Seq<LogImage>, tail: Seq<u8>, slot: Slot)
    requires
        gens_ascend(logs),
        logs.len() > 0,
        valid_slot(logs, slot),
    ensures
        valid_slot(
            logs.update(
                logs.len() - 1,
                LogImage { gen: logs.last().gen, bytes: logs.last().bytes + tail },
            ),
            slot,
        ),
        value_of(
            logs.update(
                logs.len() - 1,
                LogImage { gen: logs.last().gen, bytes: logs.last().bytes + tail },
            ),
            slot,
        ) == value_of(logs, slot),
{
    let last = logs.len() - 1;
    let grown = logs.update(last, LogImage { gen: logs.last().gen, bytes: logs.last().bytes + tail });
    let i = log_of(logs, slot.loc.gen);
    crate::logdir::lemma_update_log(logs, last, logs.last().bytes + tail);
    crate::logdir::lemma_files_at(logs, i);
    assert(grown[i].gen == slot.loc.gen);
    crate::logdir::lemma_files_at(grown, i);
    if i == last {
        let bytes = logs[i].bytes;
        let pos = slot.loc.pos;
        let end = record_at(bytes, pos).unwrap().1;
        lemma_record_bounds(bytes, pos);
        assert((bytes + tail).subrange(pos, end) =~= bytes.subrange(pos, end));
        lemma_record_moves(bytes, pos, bytes + tail, pos);
    }
}

/// The same when a log of a higher generation is added.
pub proof fn lemma_push_keeps_slot(logs: Seq<LogImage>, log: LogImage, slot: Slot)
    requires
        gens_ascend(logs),
        logs.len() > 0 ==> logs.last().gen < log.gen,
        valid_slot(logs, slot),
    ensures
        valid_slot(logs.push(log), slot),
        value_of(logs.push(log), slot) == value_of(logs, slot),
{
    let grown = logs.push(log);
    let i = log_of(logs, slot.loc.gen);
    assert forall|x: int, y: int| 0 <= x < y < grown.len() implies grown[x].gen < grown[y].gen by {
        if y == logs.len() {
            if x < logs.len() - 1 {
                assert(logs[x].gen < logs[logs.len() - 1].gen);
            }
        } else {
            assert(logs[x].gen < logs[y].gen);
        }
    }
    crate::logdir::lemma_files_at(logs, i);
    assert(grown[i].gen == slot.loc.gen);
    crate::logdir::lemma_files_at(grown, i);
}

/// Replays one log into the index and counts the bytes that its records
/// retire. `Ok` exactly where the log is a run of whole records; the index
/// then is what it was, taken through them, and every entry that the log
/// brought points at a `Set` record in it.
#[verifier::rlimit(40)]
pub fn load(log: u64, reader: &mut BufReaderWithPos, records: &mut Index) -> (r: Result<
    u64,
    KvsError,
>)
    requires
        old(records).wf(),
    ensures
        final(reader).bytes() == old(reader).bytes(),
        match r {
            Ok(uncompacted) => {
                &&& final(records).wf()
                &&& replay_log(
                    ReplayState { index: old(records)@, stale: 0 },
                    log,
                    old(reader).bytes(),
                    0,
                ) matches Some(st)
                &&& st.index == final(records)@
                &&& st.stale >= 0
                &&& uncompacted == clip(st.stale)
                &&& st.stale + final(records).live() == old(records).live() + old(
                    reader,
                ).bytes().len()
                &&& forall|i: int|
                    0 <= i < final(records).slots().len() ==> old(records).slots().contains(
                        #[trigger] final(records).slots()[i],
                    ) || (final(records).slots()[i].loc.gen == log && holds_put(
                        old(reader).bytes(),
                        final(records).slots()[i],
                    ))
            },
            Err(e) => e is Serde && replay_log(
                ReplayState { index: old(records)@, stale: 0 },
                log,
                old(reader).bytes(),
                0,
            ) is None,
        },
{
    // To make sure we read from the beginning of the log.
    reader.seek(0);
    let bytes = reader.read(u64::MAX);
    proof {
        assert(bytes@ =~= old(reader).bytes());
    }
    let ghost start = ReplayState { index: records@, stale: 0 };
    let ghost mut st = start;
    let mut uncompacted: u64 = 0;
    let mut pos: usize = 0;
    proof {
        assert forall|i: int| 0 <= i < records.slots().len() implies old(records).slots().contains(
            #[trigger] records.slots()[i],
        ) by {}
    }
    while pos < bytes.len()
        invariant
            pos <= bytes.len(),
            reader.bytes() == old(reader).bytes(),
            bytes@ == old(reader).bytes(),
            records.wf(),
            st.index == records@,
            st.stale >= 0,
            uncompacted == clip(st.stale),
            start == (ReplayState { index: old(records)@, stale: 0 }),
            replay_log(start, log, bytes@, 0) == replay_log(st, log, bytes@, pos as int),
            st.stale + records.live() == old(records).live() + pos,
            forall|i: int|
                0 <= i < records.slots().len() ==> old(records).slots().contains(
                    #[trigger] records.slots()[i],
                ) || (records.slots()[i].loc.gen == log && holds_put(bytes@, records.slots()[i])),
        decreases bytes.len() - pos,
    {
        let (cmd, new_pos) = match decode_record(bytes, pos) {
            Ok(found) => found,
            Err(e) => { return Err(e); },
        };
        proof {
            lemma_record_bounds(bytes@, pos as int);
        }
        let ghost had = *records;
        let ghost rec = cmd@;
        let len = (new_pos - pos) as u64;
        match cmd {
            MultipleCmd::Put { key, value } => {
                let args = RecordArgs::from((log, pos as u64..new_pos as u64));
                let ghost slot = Slot { key: key@, loc: args@ };
                if let Some(before) = records.insert(key, args) {
                    uncompacted = uncompacted.saturating_add(before.len);
                }
                proof {
                    assert(holds_put(bytes@, slot));
                    assert forall|i: int| 0 <= i < records.slots().len() implies old(
                        records,
                    ).slots().contains(#[trigger] records.slots()[i]) || (records.slots()[i].loc.gen
                        == log && holds_put(bytes@, records.slots()[i])) by {
                        let s = records.slots()[i];
                        if s != slot {
                            let j = choose|j: int| 0 <= j < had.slots().len() && had.slots()[j] == s;
                            assert(old(records).slots().contains(had.slots()[j]) || (
                            had.slots()[j].loc.gen == log && holds_put(bytes@, had.slots()[j])));
                        }
                    }
                }
            },
            MultipleCmd::Rm { key } => {
                if let Some(before) = records.remove(key.as_str()) {
                    uncompacted = uncompacted.saturating_add(before.len);
                }
                uncompacted = uncompacted.saturating_add(len);
                proof {
                    assert forall|i: int| 0 <= i < records.slots().len() implies old(
                        records,
                    ).slots().contains(#[trigger] records.slots()[i]) || (records.slots()[i].loc.gen
                        == log && holds_put(bytes@, records.slots()[i])) by {
                        let s = records.slots()[i];
                        let j = choose|j: int| 0 <= j < had.slots().len() && had.slots()[j] == s;
                        assert(old(records).slots().contains(had.slots()[j]) || (
                        had.slots()[j].loc.gen == log && holds_put(bytes@, had.slots()[j])));
                    }
                }
            },
        }
        proof {
            st = apply_record(st, log, pos as int, new_pos as int, rec);
        }
        pos = new_pos;
    }
    Ok(uncompacted)
}

} // verus!
