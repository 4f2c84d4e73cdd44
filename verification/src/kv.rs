//! The engine: `open`, `set`, `get`, `remove`, and compaction.

use crate::compaction::{
    compacted_logs, compaction_steps, lemma_compaction_steps, lemma_packing_start,
    lemma_packing_step, moved, packed, packing,
};
use crate::error::KvsError;
use crate::json::json_error;
use crate::index::{ascending, live_bytes, map_of, Index, Location, RecordArgs, Slot};
use crate::logdir::{
    apply_step, apply_steps, files_of, gens_ascend, lemma_apply_concat, lemma_apply_one,
    lemma_files_at, lemma_steps_concat, lemma_update_log, steps_of, total_bytes, FileOp, FileStep,
    LogDir, LogImage,
};
use crate::record::{
    decode_record, framed, is_record, lemma_record_bounds, lemma_record_moves, record_at, seal,
    write_record, MultipleCmd, Record,
};
use crate::replay::{
    clip, fresh, holds_put, lemma_append_keeps_slot, lemma_push_keeps_slot, lemma_replay_append,
    lemma_replay_dir_fails, lemma_replay_stale_shift, lemma_slot_chunk, load, replay_dir,
    replay_log, valid_slot, value_at, value_of, ReplayState,
};
use vstd::pervasive::unreached;
use vstd::prelude::*;

verus! {

/// The count of stale bytes from which a mutation compacts the logs.
pub const COMPACTION_THRESHOLD: u64 = 1024 * 1024;

/// A capability that backends of the store share.
pub trait KvsEngine {

}

/// A store of string keys and string values.
///
/// Every `set` and `remove` appends a record to the log of the active
/// generation; the index says for each live key where the record with its
/// value lies. When the records that no longer count have grown to
/// `COMPACTION_THRESHOLD` bytes, the live records are copied into a log of
/// their own and every older log is dropped.
#[derive(Debug)]
pub struct KvStore {
    log: u64,
    uncompacted: u64,
    dir: LogDir,
    records: Index,
}

impl KvsEngine for KvStore {

}

impl KvStore {
    /// The generation that records are appended to.
    pub closed spec fn active_gen(&self) -> u64 {
        self.log
    }

    /// The logs of the directory image, in ascending order of generation.
    pub closed spec fn logs(&self) -> Seq<LogImage> {
        self.dir.logs()
    }

    /// The entries of the index, in ascending order of key.
    pub closed spec fn slots(&self) -> Seq<Slot> {
        self.records.slots()
    }

    /// The count of stale bytes that the store keeps.
    pub closed spec fn counted(&self) -> u64 {
        self.uncompacted
    }

    /// The directory image: from generation to the bytes of its log.
    pub open spec fn files(&self) -> Map<u64, Seq<u8>> {
        files_of(self.logs())
    }

    /// The index: from live key to the place of its record.
    pub open spec fn index(&self) -> Map<Seq<char>, Location> {
        map_of(self.slots())
    }

    /// The stale bytes of the logs: what a replay of them counts.
    pub open spec fn stale(&self) -> int {
        replay_dir(fresh(), self.logs()).unwrap().stale
    }

    /// The invariant of the store: the active generation is the highest and
    /// has a log; every index entry points at a `Set` record for its key; a
    /// replay of the logs yields the index and the stale count; and every
    /// byte of the logs is either live or stale.
    pub open spec fn wf(&self) -> bool {
        &&& gens_ascend(self.logs())
        &&& self.logs().len() > 0
        &&& self.logs().last().gen == self.active_gen()
        &&& ascending(self.slots())
        &&& forall|i: int|
            0 <= i < self.slots().len() ==> valid_slot(self.logs(), #[trigger] self.slots()[i])
        &&& replay_dir(fresh(), self.logs()) is Some
        &&& replay_dir(fresh(), self.logs()).unwrap().index == self.index()
        &&& self.stale() >= 0
        &&& self.counted() == clip(self.stale())
        &&& self.stale() + live_bytes(self.slots()) == total_bytes(self.logs())
    }

    /// The generation that records are appended to.
    pub fn current_gen(&self) -> (gen: u64)
        ensures
            gen == self.active_gen(),
    {
        self.log
    }

    /// The count of stale bytes.
    pub fn stale_bytes(&self) -> (n: u64)
        ensures
            n == self.counted(),
    {
        self.uncompacted
    }

    /// The index.
    pub fn records(&self) -> (records: &Index)
        ensures
            records.slots() == self.slots(),
    {
        &self.records
    }

    /// The directory image.
    pub fn dir(&self) -> (dir: &LogDir)
        ensures
            dir.logs() == self.logs(),
    {
        &self.dir
    }

    /// `self` is the store that `open` makes of the directory `logs`: the
    /// logs as they were, and after them the empty log of a new active
    /// generation.
    pub open spec fn opened_from(&self, logs: Seq<LogImage>) -> bool {
        &&& self.wf()
        &&& self.active_gen() == next_gen(logs)
        &&& self.logs() == logs.push(LogImage { gen: next_gen(logs), bytes: Seq::empty() })
    }

    /// Opens a store on the directory `dir`: replays every log in ascending
    /// order of generation, and appends from then on to a new log of the
    /// generation after the highest. Returns the store and the file
    /// operation that creates the new log on disk.
    ///
    /// Fails with a `Serde` error exactly where a log is not a run of whole
    /// records.
    #[verifier::rlimit(40)]
    pub fn open(dir: LogDir) -> (r: Result<(KvStore, Vec<FileOp>), KvsError>)
        requires
            dir.wf(),
            dir.logs().len() > 0 ==> dir.logs().last().gen < u64::MAX,
        ensures
            match r {
                Ok((store, ops)) => {
                    &&& store.opened_from(dir.logs())
                    &&& steps_of(ops@) == seq![FileStep::Create { gen: store.active_gen() }]
                    &&& apply_steps(dir@, steps_of(ops@)) == store.files()
                },
                Err(e) => e is Serde && replay_dir(fresh(), dir.logs()) is None,
            },
    {
        let ghost logs0 = dir.logs();
        let mut image = dir;
        let mut records = Index::new();
        let mut uncompacted: u64 = 0;
        let ghost mut stale: int = 0;
        let n = image.len();
        let mut i: usize = 0;
        proof {
            assert(logs0.take(0) =~= Seq::<LogImage>::empty());
        }
        while i < n
            invariant
                image.wf(),
                logs0 == dir.logs(),
                logs0 == image.logs(),
                n == logs0.len(),
                i <= n,
                records.wf(),
                replay_dir(fresh(), logs0.take(i as int)) == Some(
                    ReplayState { index: records@, stale },
                ),
                stale >= 0,
                uncompacted == clip(stale),
                stale + records.live() == total_bytes(logs0.take(i as int)),
                forall|j: int|
                    0 <= j < records.slots().len() ==> valid_slot(
                        logs0,
                        #[trigger] records.slots()[j],
                    ),
            decreases n - i,
        {
            let ghost had = records;
            let gen = image.gen_at(i);
            let mut reader = image.reader(i);
            let loaded = load(gen, &mut reader, &mut records);
            proof {
                assert(logs0.take(i + 1).drop_last() =~= logs0.take(i as int));
                lemma_replay_stale_shift(
                    ReplayState { index: had@, stale: 0 },
                    gen,
                    logs0[i as int].bytes,
                    0,
                    stale,
                );
            }
            match loaded {
                Ok(more) => {
                    proof {
                        let st = replay_log(
                            ReplayState { index: had@, stale: 0 },
                            gen,
                            logs0[i as int].bytes,
                            0,
                        ).unwrap();
                        lemma_files_at(logs0, i as int);
                        assert forall|j: int| 0 <= j < records.slots().len() implies valid_slot(
                            logs0,
                            #[trigger] records.slots()[j],
                        ) by {
                            let s = records.slots()[j];
                            if had.slots().contains(s) {
                                let x = choose|x: int| 0 <= x < had.slots().len() && had.slots()[x] == s;
                                assert(valid_slot(logs0, had.slots()[x]));
                            }
                        }
                        stale = stale + st.stale;
                    }
                    uncompacted = uncompacted.saturating_add(more);
                },
                Err(e) => {
                    proof {
                        lemma_replay_dir_fails(fresh(), logs0, i + 1);
                    }
                    return Err(e);
                },
            }
            i += 1;
        }
        proof {
            assert(logs0.take(n as int) =~= logs0);
        }
        let active = match image.max_gen() {
            Some(gen) => gen + 1,
            None => 1,
        };
        let op = new_log_file(&mut image, active);
        let mut ops: Vec<FileOp> = Vec::new();
        ops.push(op);
        let store = KvStore { log: active, uncompacted, dir: image, records };
        proof {
            let added = LogImage { gen: active, bytes: Seq::<u8>::empty() };
            assert(store.logs().drop_last() =~= logs0);
            assert forall|j: int| 0 <= j < store.slots().len() implies valid_slot(
                store.logs(),
                #[trigger] store.slots()[j],
            ) by {
                lemma_push_keeps_slot(logs0, added, store.slots()[j]);
            }
            assert(steps_of(ops@) =~= seq![op@]);
            lemma_apply_one(files_of(logs0), op@);
        }
        Ok((store, ops))
    }

    /// `self` is `before` with `record` appended to the active log.
    pub open spec fn appended(&self, before: KvStore, record: Seq<u8>) -> bool {
        &&& self.wf()
        &&& self.active_gen() == before.active_gen()
        &&& self.logs() == before.logs().update(
            before.logs().len() - 1,
            LogImage { gen: before.active_gen(), bytes: before.logs().last().bytes + record },
        )
    }

    /// Appends a `Set` record for `key` to the active log and makes its
    /// place the place of `key`. Returns the file operation that does the
    /// same on disk.
    #[verifier::rlimit(40)]
    pub fn write_set(&mut self, key: String, record: Vec<u8>) -> (op: FileOp)
        requires
            old(self).wf(),
            is_put_for(record@, key@),
        ensures
            final(self).appended(*old(self), record@),
            final(self)@ == old(self)@.insert(key@, put_value(record@)),
            final(self).stale() == old(self).stale() + retired(old(self).index(), key@),
            op@ == (FileStep::Append { gen: old(self).active_gen(), bytes: record@ }),
            apply_step(old(self).files(), op@) == final(self).files(),
    {
        let ghost logs0 = self.logs();
        let ghost slots0 = self.slots();
        let ghost st0 = replay_dir(fresh(), logs0).unwrap();
        let ghost rec = record_at(record@, 0).unwrap().0;
        let ghost last = logs0.len() - 1;
        let ghost bytes0 = logs0[last].bytes;
        proof {
            lemma_record_bounds(record@, 0);
            lemma_files_at(logs0, last);
        }
        let pos = self.dir.append_last(record.as_slice());
        let ghost logs1 = self.logs();
        let args = RecordArgs { log: self.log, pos, len: record.len() as u64 };
        let ghost slot = Slot { key: key@, loc: args@ };
        if let Some(before) = self.records.insert(key, args) {
            self.uncompacted = self.uncompacted.saturating_add(before.len);
        }
        proof {
            let grown = bytes0 + record@;
            assert(logs1.drop_last() =~= logs0.drop_last());
            let mid = replay_dir(fresh(), logs0.drop_last()).unwrap();
            lemma_replay_append(mid, self.log, bytes0, 0, record@, rec);
            assert(grown.subrange(pos as int, pos + record@.len()) =~= record@.subrange(
                0,
                record@.len() as int,
            ));
            lemma_record_moves(record@, 0, grown, pos as int);
            lemma_files_at(logs1, last);
            assert(valid_slot(logs1, slot));
            assert forall|i: int| 0 <= i < self.slots().len() implies valid_slot(
                logs1,
                #[trigger] self.slots()[i],
            ) by {
                let s = self.slots()[i];
                if s != slot {
                    let j = choose|j: int| 0 <= j < slots0.len() && slots0[j] == s;
                    assert(valid_slot(logs0, slots0[j]));
                    lemma_append_keeps_slot(logs0, record@, s);
                }
            }
            lemma_put_contents(*old(self), *self, key@, record@);
        }
        FileOp::Append { gen: self.log, bytes: record }
    }

    /// Appends an `Rm` record for `key` to the active log and takes `key`
    /// out of the index. Returns the file operation that does the same on
    /// disk.
    #[verifier::rlimit(40)]
    pub fn write_rm(&mut self, key: &str, record: Vec<u8>) -> (op: FileOp)
        requires
            old(self).wf(),
            is_record(record@, Record::Rm { key: key@ }),
        ensures
            final(self).appended(*old(self), record@),
            final(self)@ == old(self)@.remove(key@),
            final(self).stale() == old(self).stale() + retired(old(self).index(), key@)
                + record@.len(),
            op@ == (FileStep::Append { gen: old(self).active_gen(), bytes: record@ }),
            apply_step(old(self).files(), op@) == final(self).files(),
    {
        let ghost logs0 = self.logs();
        let ghost slots0 = self.slots();
        let ghost rec = Record::Rm { key: key@ };
        let ghost last = logs0.len() - 1;
        let ghost bytes0 = logs0[last].bytes;
        proof {
            lemma_record_bounds(record@, 0);
            lemma_files_at(logs0, last);
        }
        self.dir.append_last(record.as_slice());
        let ghost logs1 = self.logs();
        if let Some(before) = self.records.remove(key) {
            self.uncompacted = self.uncompacted.saturating_add(before.len);
        }
        self.uncompacted = self.uncompacted.saturating_add(record.len() as u64);
        proof {
            assert(logs1.drop_last() =~= logs0.drop_last());
            let mid = replay_dir(fresh(), logs0.drop_last()).unwrap();
            lemma_replay_append(mid, self.log, bytes0, 0, record@, rec);
            assert forall|i: int| 0 <= i < self.slots().len() implies valid_slot(
                logs1,
                #[trigger] self.slots()[i],
            ) by {
                let s = self.slots()[i];
                let j = choose|j: int| 0 <= j < slots0.len() && slots0[j] == s;
                assert(valid_slot(logs0, slots0[j]));
                lemma_append_keeps_slot(logs0, record@, s);
            }
            lemma_rm_contents(*old(self), *self, key@, record@);
        }
        FileOp::Append { gen: self.log, bytes: record }
    }

    /// `self` is `before` after a compaction: the live records of `before`
    /// are packed, in the order of their keys, into the log of the
    /// generation after its active one; the generation after that is the
    /// new active one, and its log is empty; no other log is left.
    pub open spec fn compacted_from(&self, before: KvStore) -> bool {
        &&& self.wf()
        &&& self.active_gen() == before.active_gen() + 2
        &&& self.logs() == compacted_logs(
            before.active_gen(),
            packed(before.logs(), before.slots()),
        )
        &&& self.slots() == moved(before.slots(), (before.active_gen() + 1) as u64)
        &&& self.stale() == 0
    }

    /// Clears the stale records out of the logs. Returns the file
    /// operations that do the same on disk.
    #[verifier::rlimit(40)]
    pub fn compact(&mut self) -> (r: Result<Vec<FileOp>, KvsError>)
        requires
            old(self).wf(),
            old(self).active_gen() <= u64::MAX - 2,
        ensures
            match r {
                Ok(ops) => {
                    &&& final(self).compacted_from(*old(self))
                    &&& final(self)@ == old(self)@
                    &&& total_bytes(final(self).logs()) == live_bytes(final(self).slots())
                    &&& live_bytes(final(self).slots()) == live_bytes(old(self).slots())
                    &&& steps_of(ops@) == compaction_steps(
                        old(self).logs(),
                        old(self).active_gen(),
                        packed(old(self).logs(), old(self).slots()),
                    )
                    &&& apply_steps(old(self).files(), steps_of(ops@)) == final(self).files()
                },
                Err(_) => false,
            },
    {
        let ghost logs0 = self.logs();
        let ghost slots0 = self.slots();
        let compaction_log = self.log + 1;
        let active = self.log + 2;
        let (mut dir, records) = self.pack(compaction_log);
        let ops = self.compaction_ops(dir.bytes_at(0));
        proof {
            lemma_compaction_steps(logs0, self.log, packed(logs0, slots0));
        }
        dir.push_log(active);
        self.dir = dir;
        self.records = records;
        self.log = active;
        self.uncompacted = 0;
        proof {
            assert(self.logs() =~= compacted_logs(old(self).active_gen(), packed(logs0, slots0)));
            lemma_compacted(*old(self), *self);
        }
        Ok(ops)
    }

    /// Packs the live records into a log of generation `gen`, in the order
    /// of their keys, and makes the index that points into it.
    #[verifier::rlimit(40)]
    fn pack(&self, gen: u64) -> (r: (LogDir, Index))
        requires
            self.wf(),
        ensures
            r.0.wf(),
            r.0.logs() == seq![LogImage { gen, bytes: packed(self.logs(), self.slots()) }],
            r.1.wf(),
            r.1.slots() == moved(self.slots(), gen),
            packing(
                self.logs(),
                self.slots(),
                gen,
                self.slots().len() as int,
                packed(self.logs(), self.slots()),
                r.1.slots(),
            ),
    {
        let ghost logs0 = self.logs();
        let ghost slots0 = self.slots();
        let mut dir = LogDir::new();
        dir.push_log(gen);
        let mut records = Index::new();
        let n = self.records.len();
        let mut i: usize = 0;
        proof {
            lemma_packing_start(logs0, slots0, gen);
        }
        while i < n
            invariant
                self.wf(),
                logs0 == self.logs(),
                slots0 == self.slots(),
                n == slots0.len(),
                i <= n,
                dir.wf(),
                dir.logs().len() == 1,
                dir.logs()[0].gen == gen,
                records.wf(),
                packing(logs0, slots0, gen, i as int, dir.logs()[0].bytes, records.slots()),
            decreases n - i,
        {
            let entry = self.records.entry(i);
            let ghost slot = slots0[i as int];
            let ghost packed_so_far = dir.logs()[0].bytes;
            let ghost moved_so_far = records.slots();
            proof {
                assert(valid_slot(logs0, slots0[i as int]));
            }
            let at = match self.dir.find(entry.args.log) {
                Some(at) => at,
                None => unreached(),
            };
            proof {
                lemma_slot_chunk(logs0, slot, at as int);
                lemma_packing_step(logs0, slots0, gen, i as int, packed_so_far, moved_so_far);
            }
            let mut reader = self.dir.reader(at);
            if reader.pos() != entry.args.pos {
                reader.seek(entry.args.pos);
            }
            let chunk = reader.read(entry.args.len);
            let new_pos = dir.append_last(chunk);
            records.push_last(
                entry.key.clone(),
                RecordArgs { log: gen, pos: new_pos, len: entry.args.len },
            );
            i += 1;
        }
        proof {
            assert(slots0.take(n as int) =~= slots0);
            assert(moved(slots0, gen).take(n as int) =~= moved(slots0, gen));
            assert(dir.logs() =~= seq![LogImage { gen, bytes: packed(logs0, slots0) }]);
        }
        (dir, records)
    }

    /// The file operations of a compaction that packs the live records into
    /// `bytes`.
    #[verifier::rlimit(40)]
    fn compaction_ops(&self, bytes: &Vec<u8>) -> (ops: Vec<FileOp>)
        requires
            self.active_gen() <= u64::MAX - 2,
        ensures
            steps_of(ops@) == compaction_steps(self.logs(), self.active_gen(), bytes@),
    {
        let ghost logs0 = self.logs();
        let ghost steps = compaction_steps(logs0, self.log, bytes@);
        let mut ops: Vec<FileOp> = Vec::new();
        ops.push(FileOp::Create { gen: self.log + 2 });
        ops.push(FileOp::Create { gen: self.log + 1 });
        ops.push(FileOp::Append { gen: self.log + 1, bytes: bytes.clone() });
        let logs = self.dir.len();
        let mut k: usize = 0;
        proof {
            assert(steps_of(ops@) =~= steps.take(3));
        }
        while k < logs
            invariant
                logs0 == self.logs(),
                logs == logs0.len(),
                k <= logs,
                steps == compaction_steps(logs0, self.log, bytes@),
                steps_of(ops@) == steps.take(3 + k),
            decreases logs - k,
        {
            let ghost had = steps_of(ops@);
            ops.push(FileOp::Remove { gen: self.dir.gen_at(k) });
            proof {
                assert(steps[3 + k] == FileStep::Remove { gen: logs0[k as int].gen });
                assert(steps_of(ops@) =~= had.push(FileStep::Remove { gen: logs0[k as int].gen }));
                assert(steps.take(3 + k + 1) =~= steps.take(3 + k).push(steps[3 + k]));
            }
            k += 1;
        }
        proof {
            assert(steps.take(3 + logs as int) =~= steps);
        }
        ops
    }

    /// `self` is `before` after the check that follows every mutation: the
    /// store compacted where its count of stale bytes had reached the
    /// threshold, and left alone where it had not.
    pub open spec fn settled_from(&self, before: KvStore) -> bool {
        if before.counted() >= COMPACTION_THRESHOLD {
            self.compacted_from(before)
        } else {
            *self == before
        }
    }

    /// `self` is `before` after the mutation that the record `rec` stands
    /// for, written as `bytes`: the bytes read as the record, they are
    /// appended to the active log, and the store compacts where that brings
    /// the stale bytes to the threshold. A key is removed only where the
    /// store has a value for it.
    pub open spec fn follows(&self, before: KvStore, rec: Record, bytes: Seq<u8>) -> bool {
        &&& is_record(bytes, rec)
        &&& rec is Rm ==> before@.dom().contains(rec.key())
        &&& exists|mid: KvStore| #[trigger] mid.appended(before, bytes) && self.settled_from(mid)
    }

    /// Compacts where the count of stale bytes has reached the threshold.
    /// Returns the file operations that do the same on disk.
    pub fn settle(&mut self) -> (ops: Vec<FileOp>)
        requires
            old(self).wf(),
            old(self).active_gen() <= u64::MAX - 2,
        ensures
            final(self).wf(),
            final(self).settled_from(*old(self)),
            final(self)@ == old(self)@,
            final(self).counted() < COMPACTION_THRESHOLD,
            total_bytes(final(self).logs()) < live_bytes(final(self).slots())
                + COMPACTION_THRESHOLD,
            apply_steps(old(self).files(), steps_of(ops@)) == final(self).files(),
    {
        if self.uncompacted >= COMPACTION_THRESHOLD {
            match self.compact() {
                Ok(ops) => ops,
                Err(_) => unreached(),
            }
        } else {
            let ops: Vec<FileOp> = Vec::new();
            proof {
                assert(steps_of(ops@) =~= Seq::<FileStep>::empty());
            }
            ops
        }
    }

    /// Does the mutation that `cmd` stands for, with `record` as its
    /// on-disk form. Returns the file operations that do the same on disk.
    ///
    /// Fails with `KeyNotFound` where `cmd` removes a key that the store
    /// has no value for, and otherwise with a `Serde` error where `record`
    /// does not read as `cmd`, whole and nothing else. A call that fails
    /// leaves the store as it was. In every other case the record is
    /// appended to the active log, the index follows, and the store
    /// compacts where that brings the stale bytes to the threshold.
    #[verifier::rlimit(40)]
    pub fn apply(&mut self, cmd: MultipleCmd, record: Vec<u8>) -> (r: Result<Vec<FileOp>, KvsError>)
        requires
            old(self).wf(),
            old(self).active_gen() <= u64::MAX - 2,
        ensures
            match r {
                Ok(ops) => {
                    &&& final(self).follows(*old(self), cmd@, record@)
                    &&& final(self).wf()
                    &&& final(self)@ == contents_step(old(self)@, cmd@)
                    &&& final(self).counted() < COMPACTION_THRESHOLD
                    &&& total_bytes(final(self).logs()) < live_bytes(final(self).slots())
                        + COMPACTION_THRESHOLD
                    &&& apply_steps(old(self).files(), steps_of(ops@)) == final(self).files()
                },
                Err(e) => {
                    &&& *final(self) == *old(self)
                    &&& e is KeyNotFound || e is Serde
                    &&& e is KeyNotFound <==> cmd@ is Rm && !old(self)@.dom().contains(
                        cmd@.key(),
                    )
                    &&& e is Serde ==> !is_record(record@, cmd@)
                },
            },
    {
        if let MultipleCmd::Rm { key } = &cmd {
            if self.records.get(key.as_str()).is_none() {
                return Err(KvsError::KeyNotFound);
            }
        }
        let record = match seal(&cmd, record) {
            Ok(record) => record,
            Err(e) => { return Err(e); },
        };
        let op = match cmd {
            MultipleCmd::Put { key, .. } => self.write_set(key, record),
            MultipleCmd::Rm { key } => self.write_rm(key.as_str(), record),
        };
        let ghost mid = *self;
        let mut ops: Vec<FileOp> = Vec::new();
        ops.push(op);
        let mut more = self.settle();
        proof {
            let first = steps_of(ops@);
            let rest = steps_of(more@);
            assert(first =~= seq![op@]);
            lemma_apply_one(old(self).files(), op@);
            lemma_steps_concat(ops@, more@);
            lemma_apply_concat(old(self).files(), first, rest);
            assert(mid.appended(*old(self), record@) && self.settled_from(mid));
        }
        ops.append(&mut more);
        Ok(ops)
    }

    /// Sets the value of `key` to `value`. Returns the file operations that
    /// do the same on disk.
    ///
    /// The record is appended to the active log, and the store compacts
    /// where that brings the stale bytes to the threshold. The call
    /// succeeds exactly where the record, written as JSON, reads back as it
    /// was written; where it does not, the call fails with a `Serde` error
    /// and leaves the store as it was.
    pub fn set(&mut self, key: String, value: String) -> (r: Result<Vec<FileOp>, KvsError>)
        requires
            old(self).wf(),
            old(self).active_gen() <= u64::MAX - 2,
        ensures
            match r {
                Ok(ops) => {
                    &&& final(self).follows(
                        *old(self),
                        Record::Put { key: key@, value: value@ },
                        framed(Record::Put { key: key@, value: value@ }),
                    )
                    &&& final(self).wf()
                    &&& final(self)@ == old(self)@.insert(key@, value@)
                    &&& final(self).counted() < COMPACTION_THRESHOLD
                    &&& total_bytes(final(self).logs()) < live_bytes(final(self).slots())
                        + COMPACTION_THRESHOLD
                    &&& apply_steps(old(self).files(), steps_of(ops@)) == final(self).files()
                },
                Err(e) => {
                    &&& e is Serde
                    &&& *final(self) == *old(self)
                    &&& !is_record(
                        framed(Record::Put { key: key@, value: value@ }),
                        Record::Put { key: key@, value: value@ },
                    )
                },
            },
    {
        let cmd = MultipleCmd::set(key, value);
        match write_record(&cmd) {
            Ok(record) => self.apply(cmd, record),
            Err(e) => Err(e),
        }
    }

    /// Removes `key`. Returns the file operations that do the same on disk.
    ///
    /// Fails with `KeyNotFound` exactly where the store has no value for
    /// `key`. Where it has one, the call succeeds exactly where the `Rm`
    /// record, written as JSON, reads back as it was written, and fails
    /// with a `Serde` error where it does not. On success the record is
    /// appended to the active log, and the store compacts where that brings
    /// the stale bytes to the threshold. A call that fails leaves the store
    /// as it was.
    pub fn remove(&mut self, key: String) -> (r: Result<Vec<FileOp>, KvsError>)
        requires
            old(self).wf(),
            old(self).active_gen() <= u64::MAX - 2,
        ensures
            match r {
                Ok(ops) => {
                    &&& final(self).follows(
                        *old(self),
                        Record::Rm { key: key@ },
                        framed(Record::Rm { key: key@ }),
                    )
                    &&& final(self).wf()
                    &&& final(self)@ == old(self)@.remove(key@)
                    &&& final(self).counted() < COMPACTION_THRESHOLD
                    &&& total_bytes(final(self).logs()) < live_bytes(final(self).slots())
                        + COMPACTION_THRESHOLD
                    &&& apply_steps(old(self).files(), steps_of(ops@)) == final(self).files()
                },
                Err(e) => {
                    &&& *final(self) == *old(self)
                    &&& e is KeyNotFound || e is Serde
                    &&& e is KeyNotFound <==> !old(self)@.dom().contains(key@)
                    &&& e is Serde ==> !is_record(
                        framed(Record::Rm { key: key@ }),
                        Record::Rm { key: key@ },
                    )
                },
            },
    {
        if self.records.get(key.as_str()).is_none() {
            return Err(KvsError::KeyNotFound);
        }
        let cmd = MultipleCmd::rm(key);
        match write_record(&cmd) {
            Ok(record) => self.apply(cmd, record),
            Err(e) => Err(e),
        }
    }

    /// The value of `key`, or `None` where the store has none for it.
    pub fn get(&self, key: String) -> (r: Result<Option<String>, KvsError>)
        requires
            self.wf(),
        ensures
            match r {
                Ok(Some(value)) => self@.dom().contains(key@) && self@[key@] == value@,
                Ok(None) => !self@.dom().contains(key@),
                Err(_) => false,
            },
    {
        if let Some(args) = self.records.get(key.as_str()) {
            let ghost slot = Slot { key: key@, loc: args@ };
            proof {
                let i = crate::index::slot_of(self.slots(), key@);
                crate::index::lemma_map_of_at(self.slots(), i);
                assert(self.slots()[i] == slot);
            }
            let at = match self.dir.find(args.log) {
                Some(at) => at,
                None => unreached(),
            };
            proof {
                lemma_slot_chunk(self.logs(), slot, at as int);
            }
            let mut reader = self.dir.reader(at);
            reader.seek(args.pos);
            let chunk = reader.read(args.len);
            match read_value(chunk) {
                Ok(value) => Ok(Some(value)),
                Err(e) => Err(e),
            }
        } else {
            Ok(None)
        }
    }
}

/// Reads the value out of the bytes that the index gives as the place of a
/// `Set` record. Fails with `UnexpectedCommandType` where the bytes are an
/// `Rm` record, and with a `Serde` error where they are no record, or a
/// record and more.
pub fn read_value(chunk: &[u8]) -> (r: Result<String, KvsError>)
    ensures
        match r {
            Ok(value) => is_put_for_any(chunk@) && put_value(chunk@) == value@,
            Err(e) => !is_put_for_any(chunk@) && (e is UnexpectedCommandType <==> exists|
                key: Seq<char>,
            |
                is_record(chunk@, Record::Rm { key })) && (e is UnexpectedCommandType || e is Serde),
        },
{
    match decode_record(chunk, 0) {
        Ok((cmd, end)) => {
            if end != chunk.len() {
                return Err(KvsError::Serde(json_error("trailing bytes after a record")));
            }
            match cmd {
                MultipleCmd::Put { value, .. } => Ok(value),
                MultipleCmd::Rm { key } => {
                    assert(is_record(chunk@, Record::Rm { key: key@ }));
                    Err(KvsError::UnexpectedCommandType)
                },
            }
        },
        Err(e) => Err(e),
    }
}

/// `record` is a `Set` record, whole and nothing else.
pub open spec fn is_put_for_any(record: Seq<u8>) -> bool {
    match record_at(record, 0) {
        Some((Record::Put { .. }, end)) => end == record.len(),
        _ => false,
    }
}

/// The contents after the mutation that `rec` stands for.
pub open spec fn contents_step(contents: Map<Seq<char>, Seq<char>>, rec: Record) -> Map<
    Seq<char>,
    Seq<char>,
> {
    match rec {
        Record::Put { key, value } => contents.insert(key, value),
        Record::Rm { key } => contents.remove(key),
    }
}

/// The generation that a store opened on `logs` appends to: the one after
/// the highest, or the first.
pub open spec fn next_gen(logs: Seq<LogImage>) -> u64 {
    if logs.len() == 0 {
        1
    } else {
        (logs.last().gen + 1) as u64
    }
}

/// Adds to `dir` the empty log of a generation above all that it has.
/// Returns the file operation that creates the log on disk.
pub fn new_log_file(dir: &mut LogDir, gen: u64) -> (op: FileOp)
    requires
        old(dir).wf(),
        old(dir).logs().len() > 0 ==> old(dir).logs().last().gen < gen,
    ensures
        final(dir).wf(),
        final(dir).logs() == old(dir).logs().push(LogImage { gen, bytes: Seq::<u8>::empty() }),
        final(dir).total() == old(dir).total(),
        op@ == (FileStep::Create { gen }),
        apply_step(old(dir)@, op@) == final(dir)@,
{
    proof {
        let logs = dir.logs();
        if crate::logdir::has_gen(logs, gen) {
            let j = crate::logdir::log_of(logs, gen);
            if j < logs.len() - 1 {
                assert(logs[j].gen < logs[logs.len() - 1].gen);
            }
        }
    }
    dir.push_log(gen);
    FileOp::Create { gen }
}

/// `record` is a `Set` record for `key`, whole and nothing else.
pub open spec fn is_put_for(record: Seq<u8>, key: Seq<char>) -> bool {
    match record_at(record, 0) {
        Some((Record::Put { key: k, .. }, end)) => k == key && end == record.len(),
        _ => false,
    }
}

/// The value that the `Set` record `record` carries.
pub open spec fn put_value(record: Seq<u8>) -> Seq<char> {
    match record_at(record, 0) {
        Some((Record::Put { value, .. }, _)) => value,
        _ => Seq::empty(),
    }
}

/// The length of the record that `index` has for `key`: the bytes that a
/// new record for `key` retires.
pub open spec fn retired(index: Map<Seq<char>, Location>, key: Seq<char>) -> int {
    if index.dom().contains(key) {
        index[key].len
    } else {
        0
    }
}

/// After a `Set` record for `key` is appended, the store maps `key` to the
/// value of the record and every other key to what it had.
#[verifier::rlimit(40)]
pub proof fn lemma_put_contents(before: KvStore, after: KvStore, key: Seq<char>, record: Seq<u8>)
    requires
        before.wf(),
        is_put_for(record, key),
        after.appended(before, record),
    ensures
        after.index() == before.index().insert(
            key,
            Location {
                gen: before.active_gen(),
                pos: before.logs().last().bytes.len() as int,
                len: record.len() as int,
            },
        ),
        after.stale() == before.stale() + retired(before.index(), key),
        after@ == before@.insert(key, put_value(record)),
        after.files() == before.files().insert(
            before.active_gen(),
            before.files()[before.active_gen()] + record,
        ),
{
    let logs0 = before.logs();
    let logs1 = after.logs();
    let last = logs0.len() - 1;
    let gen = before.active_gen();
    let bytes0 = logs0.last().bytes;
    let grown = bytes0 + record;
    let rec = record_at(record, 0).unwrap().0;
    let loc = Location { gen, pos: bytes0.len() as int, len: record.len() as int };
    let slot = Slot { key, loc };
    lemma_record_bounds(record, 0);
    assert(logs1.drop_last() =~= logs0.drop_last());
    let mid = replay_dir(fresh(), logs0.drop_last()).unwrap();
    lemma_replay_append(mid, gen, bytes0, 0, record, rec);
    lemma_update_log(logs0, last, grown);
    lemma_files_at(logs0, last);
    lemma_files_at(logs1, last);
    assert(grown.subrange(bytes0.len() as int, (bytes0.len() + record.len()) as int) =~= record.subrange(
        0,
        record.len() as int,
    ));
    lemma_record_moves(record, 0, grown, bytes0.len() as int);
    assert(value_of(logs1, slot) == put_value(record));
    let expected = before@.insert(key, put_value(record));
    assert forall|k: Seq<char>| after@.dom().contains(k) implies after@[k] == expected[k] by {
        if k != key {
            let i = crate::index::slot_of(before.slots(), k);
            crate::index::lemma_map_of_at(before.slots(), i);
            lemma_append_keeps_slot(logs0, record, before.slots()[i]);
        }
    }
    assert(after@ =~= expected);
}

/// After an `Rm` record for `key` is appended, the store has no value for
/// `key` and maps every other key to what it had.
#[verifier::rlimit(40)]
pub proof fn lemma_rm_contents(before: KvStore, after: KvStore, key: Seq<char>, record: Seq<u8>)
    requires
        before.wf(),
        is_record(record, Record::Rm { key }),
        after.appended(before, record),
    ensures
        after.index() == before.index().remove(key),
        after.stale() == before.stale() + retired(before.index(), key) + record.len(),
        after@ == before@.remove(key),
        after.files() == before.files().insert(
            before.active_gen(),
            before.files()[before.active_gen()] + record,
        ),
{
    let logs0 = before.logs();
    let logs1 = after.logs();
    let last = logs0.len() - 1;
    let gen = before.active_gen();
    let bytes0 = logs0.last().bytes;
    let grown = bytes0 + record;
    let rec = Record::Rm { key };
    lemma_record_bounds(record, 0);
    assert(logs1.drop_last() =~= logs0.drop_last());
    let mid = replay_dir(fresh(), logs0.drop_last()).unwrap();
    lemma_replay_append(mid, gen, bytes0, 0, record, rec);
    lemma_update_log(logs0, last, grown);
    lemma_files_at(logs0, last);
    lemma_files_at(logs1, last);
    let expected = before@.remove(key);
    assert forall|k: Seq<char>| after@.dom().contains(k) implies after@[k] == expected[k] by {
        let i = crate::index::slot_of(before.slots(), k);
        crate::index::lemma_map_of_at(before.slots(), i);
        lemma_append_keeps_slot(logs0, record, before.slots()[i]);
    }
    assert(after@ =~= expected);
}

/// What a finished compaction leaves: a store that is well formed, counts
/// no stale byte, and has the contents it had.
#[verifier::rlimit(40)]
pub proof fn lemma_compacted(before: KvStore, after: KvStore)
    requires
        before.wf(),
        before.active_gen() <= u64::MAX - 2,
        after.active_gen() == before.active_gen() + 2,
        after.counted() == 0,
        after.logs() == compacted_logs(before.active_gen(), packed(before.logs(), before.slots())),
        after.slots() == moved(before.slots(), (before.active_gen() + 1) as u64),
        packing(
            before.logs(),
            before.slots(),
            (before.active_gen() + 1) as u64,
            before.slots().len() as int,
            packed(before.logs(), before.slots()),
            after.slots(),
        ),
    ensures
        after.compacted_from(before),
        after@ == before@,
        total_bytes(after.logs()) == live_bytes(after.slots()),
        live_bytes(after.slots()) == live_bytes(before.slots()),
{
    assert(before.slots().take(before.slots().len() as int) =~= before.slots());
    let logs0 = before.logs();
    let slots0 = before.slots();
    let gen = (before.active_gen() + 1) as u64;
    let c = packed(logs0, slots0);
    let s = after.slots();
    let logs2 = after.logs();
    let first = seq![LogImage { gen, bytes: c }];
    assert(logs2.drop_last() =~= first);
    assert(first.drop_last() =~= Seq::<LogImage>::empty());
    assert(replay_dir(fresh(), Seq::<LogImage>::empty()) == Some(fresh()));
    assert(replay_dir(fresh(), first) == replay_log(fresh(), gen, c, 0));
    let st = ReplayState { index: map_of(s), stale: 0 };
    assert(replay_log(st, after.active_gen(), Seq::<u8>::empty(), 0) == Some(st));
    assert(replay_dir(fresh(), logs2) == Some(st));
    lemma_files_at(logs2, 0);
    assert forall|i: int| 0 <= i < s.len() implies valid_slot(logs2, #[trigger] s[i]) by {
        assert(holds_put(c, s[i]));
        assert(logs2[0].gen == s[i].loc.gen);
    }
    assert(total_bytes(first) == c.len()) by {
        assert(total_bytes(Seq::<LogImage>::empty()) == 0);
    }
    assert(total_bytes(logs2) == c.len());
    let expected = before@;
    assert forall|k: Seq<char>| after@.dom().contains(k) <==> expected.dom().contains(k) by {
        if crate::index::has_key(s, k) {
            let i = crate::index::slot_of(s, k);
            assert(slots0[i].key == k);
        }
        if crate::index::has_key(slots0, k) {
            let i = crate::index::slot_of(slots0, k);
            assert(s[i].key == k);
        }
    }
    assert forall|k: Seq<char>| after@.dom().contains(k) implies after@[k] == expected[k] by {
        let i = crate::index::slot_of(s, k);
        crate::index::lemma_map_of_at(s, i);
        assert(slots0[i].key == k);
        crate::index::lemma_map_of_at(slots0, i);
        assert(holds_put(c, s[i]));
        assert(value_at(c, s[i]) == value_of(logs0, slots0[i]));
    }
    assert(after@ =~= expected);
}

impl View for KvStore {
    type V = Map<Seq<char>, Seq<char>>;

    /// The contents: from live key to its value.
    open spec fn view(&self) -> Map<Seq<char>, Seq<char>> {
        Map::new(
            |key: Seq<char>| self.index().dom().contains(key),
            |key: Seq<char>| value_of(self.logs(), Slot { key, loc: self.index()[key] }),
        )
    }
}

} // verus!
