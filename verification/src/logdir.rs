//! The image of a database directory: the bytes of every log, by
//! generation, and the file operations that bring a directory on disk in
//! line with it.

use crate::cursor::{BufReaderWithPos, BufWriterWithPos};
use vstd::prelude::*;

verus! {

/// One log: its generation and its bytes.
#[derive(Debug)]
pub struct LogFile {
    pub gen: u64,
    pub data: Vec<u8>,
}

/// A log as contracts speak of it.
pub struct LogImage {
    pub gen: u64,
    pub bytes: Seq<u8>,
}

impl View for LogFile {
    type V = LogImage;

    open spec fn view(&self) -> LogImage {
        LogImage { gen: self.gen, bytes: self.data@ }
    }
}

/// The generations of `logs` ascend strictly.
pub open spec fn gens_ascend(logs: Seq<LogImage>) -> bool {
    forall|i: int, j: int| 0 <= i < j < logs.len() ==> logs[i].gen < logs[j].gen
}

/// `logs` holds a log of generation `gen`.
pub open spec fn has_gen(logs: Seq<LogImage>, gen: u64) -> bool {
    exists|i: int| 0 <= i < logs.len() && logs[i].gen == gen
}

/// An index of the log of generation `gen`.
pub open spec fn log_of(logs: Seq<LogImage>, gen: u64) -> int {
    choose|i: int| 0 <= i < logs.len() && logs[i].gen == gen
}

/// The directory that `logs` stands for: from generation to bytes.
pub open spec fn files_of(logs: Seq<LogImage>) -> Map<u64, Seq<u8>> {
    Map::new(|gen: u64| has_gen(logs, gen), |gen: u64| logs[log_of(logs, gen)].bytes)
}

/// The bytes of all of `logs` together.
pub open spec fn total_bytes(logs: Seq<LogImage>) -> int
    decreases logs.len(),
{
    if logs.len() == 0 {
        0
    } else {
        total_bytes(logs.drop_last()) + logs.last().bytes.len()
    }
}

/// What `files_of` holds for the generation of a log.
pub proof fn lemma_files_at(logs: Seq<LogImage>, i: int)
    requires
        gens_ascend(logs),
        0 <= i < logs.len(),
    ensures
        files_of(logs).dom().contains(logs[i].gen),
        files_of(logs)[logs[i].gen] == logs[i].bytes,
        log_of(logs, logs[i].gen) == i,
{
    assert(has_gen(logs, logs[i].gen));
    let j = log_of(logs, logs[i].gen);
    if i < j {
        assert(logs[i].gen < logs[j].gen);
    } else if j < i {
        assert(logs[j].gen < logs[i].gen);
    }
}

/// Putting a log in where its generation belongs adds its file.
#[verifier::rlimit(40)]
pub proof fn lemma_insert_log(logs: Seq<LogImage>, i: int, log: LogImage)
    requires
        gens_ascend(logs),
        0 <= i <= logs.len(),
        forall|j: int| 0 <= j < i ==> (#[trigger] logs[j]).gen < log.gen,
        forall|j: int| i <= j < logs.len() ==> log.gen < (#[trigger] logs[j]).gen,
    ensures
        gens_ascend(logs.insert(i, log)),
        files_of(logs.insert(i, log)) == files_of(logs).insert(log.gen, log.bytes),
{
    let after = logs.insert(i, log);
    assert forall|x: int, y: int| 0 <= x < y < after.len() implies after[x].gen
        < after[y].gen by {
        if x < i && y == i {
            assert(logs[x].gen < log.gen);
        } else if x < i && y > i {
            assert(logs[x].gen < logs[y - 1].gen);
        } else if x == i {
            assert(log.gen < logs[y - 1].gen);
        } else if x > i {
            assert(logs[x - 1].gen < logs[y - 1].gen);
        } else {
            assert(logs[x].gen < logs[y].gen);
        }
    }
    let expected = files_of(logs).insert(log.gen, log.bytes);
    assert forall|gen: u64| files_of(after).dom().contains(gen) <==> expected.dom().contains(
        gen,
    ) by {
        if has_gen(after, gen) {
            let x = log_of(after, gen);
            if x < i {
                assert(logs[x].gen == gen);
            } else if x > i {
                assert(logs[x - 1].gen == gen);
            }
        }
        if has_gen(logs, gen) {
            let x = log_of(logs, gen);
            if x < i {
                assert(after[x].gen == gen);
            } else {
                assert(after[x + 1].gen == gen);
            }
        }
        if gen == log.gen {
            assert(after[i].gen == gen);
        }
    }
    assert forall|gen: u64| files_of(after).dom().contains(gen) implies files_of(after)[gen]
        == expected[gen] by {
        let x = log_of(after, gen);
        lemma_files_at(after, x);
        if x < i {
            lemma_files_at(logs, x);
        } else if x > i {
            lemma_files_at(logs, x - 1);
        }
    }
    assert(files_of(after) =~= expected);
}

/// Giving log `i` new bytes rewrites its file.
pub proof fn lemma_update_log(logs: Seq<LogImage>, i: int, bytes: Seq<u8>)
    requires
        gens_ascend(logs),
        0 <= i < logs.len(),
    ensures
        gens_ascend(logs.update(i, LogImage { gen: logs[i].gen, bytes })),
        files_of(logs.update(i, LogImage { gen: logs[i].gen, bytes })) == files_of(logs).insert(
            logs[i].gen,
            bytes,
        ),
{
    let log = LogImage { gen: logs[i].gen, bytes };
    let after = logs.update(i, log);
    assert forall|x: int, y: int| 0 <= x < y < after.len() implies after[x].gen
        < after[y].gen by {
        assert(logs[x].gen < logs[y].gen);
    }
    let expected = files_of(logs).insert(log.gen, bytes);
    assert forall|gen: u64| files_of(after).dom().contains(gen) <==> expected.dom().contains(
        gen,
    ) by {
        if has_gen(after, gen) {
            let x = log_of(after, gen);
            assert(logs[x].gen == gen);
        }
        if has_gen(logs, gen) {
            let x = log_of(logs, gen);
            assert(after[x].gen == gen);
        }
        if gen == log.gen {
            assert(after[i].gen == gen);
        }
    }
    assert forall|gen: u64| files_of(after).dom().contains(gen) implies files_of(after)[gen]
        == expected[gen] by {
        let x = log_of(after, gen);
        lemma_files_at(after, x);
        if x != i {
            lemma_files_at(logs, x);
        }
    }
    assert(files_of(after) =~= expected);
}

/// Taking the last log away deletes its file.
pub proof fn lemma_drop_last_log(logs: Seq<LogImage>)
    requires
        gens_ascend(logs),
        logs.len() > 0,
    ensures
        gens_ascend(logs.drop_last()),
        files_of(logs.drop_last()) == files_of(logs).remove(logs.last().gen),
{
    let rest = logs.drop_last();
    let last = logs.len() - 1;
    assert forall|x: int, y: int| 0 <= x < y < rest.len() implies rest[x].gen < rest[y].gen by {
        assert(logs[x].gen < logs[y].gen);
    }
    let expected = files_of(logs).remove(logs.last().gen);
    assert forall|gen: u64| files_of(rest).dom().contains(gen) <==> expected.dom().contains(
        gen,
    ) by {
        if has_gen(rest, gen) {
            let x = log_of(rest, gen);
            assert(logs[x].gen == gen);
            assert(logs[x].gen < logs[last].gen);
        }
        if has_gen(logs, gen) && gen != logs.last().gen {
            let x = log_of(logs, gen);
            assert(rest[x].gen == gen);
        }
    }
    assert forall|gen: u64| files_of(rest).dom().contains(gen) implies files_of(rest)[gen]
        == expected[gen] by {
        let x = log_of(rest, gen);
        lemma_files_at(rest, x);
        lemma_files_at(logs, x);
        assert(logs[x].gen < logs[last].gen);
    }
    assert(files_of(rest) =~= expected);
}

/// A directory has one image: two ascending runs of logs that stand for
/// the same files are the same.
#[verifier::rlimit(40)]
pub proof fn lemma_logs_determined(a: Seq<LogImage>, b: Seq<LogImage>)
    requires
        gens_ascend(a),
        gens_ascend(b),
        files_of(a) == files_of(b),
    ensures
        a == b,
    decreases a.len(),
{
    if a.len() == 0 {
        if b.len() > 0 {
            lemma_files_at(b, 0);
            assert(has_gen(a, b[0].gen));
        }
        assert(a =~= b);
    } else if b.len() == 0 {
        lemma_files_at(a, 0);
        assert(has_gen(b, a[0].gen));
    } else {
        let la = a.len() - 1;
        let lb = b.len() - 1;
        lemma_files_at(a, la);
        lemma_files_at(b, lb);
        assert(has_gen(b, a[la].gen));
        assert(has_gen(a, b[lb].gen));
        let j = log_of(b, a[la].gen);
        let i = log_of(a, b[lb].gen);
        if a[la].gen != b[lb].gen {
            assert(b[j].gen < b[lb].gen);
            assert(a[i].gen < a[la].gen);
        }
        lemma_drop_last_log(a);
        lemma_drop_last_log(b);
        lemma_logs_determined(a.drop_last(), b.drop_last());
        assert(a =~= a.drop_last().push(a[la]));
        assert(b =~= b.drop_last().push(b[lb]));
    }
}

/// The image of a database directory.
#[derive(Debug)]
pub struct LogDir {
    logs: Vec<LogFile>,
}

impl LogDir {
    /// The logs, in ascending order of generation.
    pub closed spec fn logs(&self) -> Seq<LogImage> {
        Seq::new(self.logs@.len(), |i: int| self.logs@[i]@)
    }

    /// The generations ascend, so none has two logs.
    pub open spec fn wf(&self) -> bool {
        gens_ascend(self.logs())
    }

    /// The bytes of all logs together.
    pub open spec fn total(&self) -> int {
        total_bytes(self.logs())
    }

    /// A directory without logs.
    pub fn new() -> (dir: LogDir)
        ensures
            dir.wf(),
            dir.logs() == Seq::<LogImage>::empty(),
            dir@ == Map::<u64, Seq<u8>>::empty(),
    {
        let dir = LogDir { logs: Vec::new() };
        proof {
            assert(dir.logs() =~= Seq::<LogImage>::empty());
            assert(files_of(dir.logs()) =~= Map::<u64, Seq<u8>>::empty());
        }
        dir
    }

    /// The number of logs.
    pub fn len(&self) -> (n: usize)
        ensures
            n == self.logs().len(),
    {
        self.logs.len()
    }

    /// The generation of the log at position `i`.
    pub fn gen_at(&self, i: usize) -> (gen: u64)
        requires
            i < self.logs().len(),
        ensures
            gen == self.logs()[i as int].gen,
    {
        self.logs[i].gen
    }

    /// The bytes of the log at position `i`.
    pub fn bytes_at(&self, i: usize) -> (bytes: &Vec<u8>)
        requires
            i < self.logs().len(),
        ensures
            bytes@ == self.logs()[i as int].bytes,
    {
        &self.logs[i].data
    }

    /// The position of the first log whose generation is not below `gen`.
    fn lower_bound(&self, gen: u64) -> (i: usize)
        requires
            self.wf(),
        ensures
            i <= self.logs().len(),
            forall|j: int| 0 <= j < i ==> (#[trigger] self.logs()[j]).gen < gen,
            forall|j: int| i <= j < self.logs().len() ==> gen <= (#[trigger] self.logs()[j]).gen,
    {
        let mut i: usize = 0;
        while i < self.logs.len() && self.logs[i].gen < gen
            invariant
                self.wf(),
                i <= self.logs().len(),
                self.logs().len() == self.logs@.len(),
                forall|j: int| 0 <= j < i ==> (#[trigger] self.logs()[j]).gen < gen,
            decreases self.logs.len() - i,
        {
            i += 1;
        }
        proof {
            if i < self.logs().len() {
                assert(gen <= self.logs()[i as int].gen);
                assert forall|j: int| i <= j < self.logs().len() implies gen <= (
                #[trigger] self.logs()[j]).gen by {
                    if i < j {
                        assert(self.logs()[i as int].gen < self.logs()[j].gen);
                    }
                }
            }
        }
        i
    }

    /// The position of the log of generation `gen`, if the directory has one.
    pub fn find(&self, gen: u64) -> (r: Option<usize>)
        requires
            self.wf(),
        ensures
            match r {
                Some(i) => i < self.logs().len() && self.logs()[i as int].gen == gen,
                None => !has_gen(self.logs(), gen),
            },
    {
        let i = self.lower_bound(gen);
        if i < self.logs.len() && self.logs[i].gen == gen {
            Some(i)
        } else {
            proof {
                assert forall|j: int| 0 <= j < self.logs().len() implies self.logs()[j].gen
                    != gen by {
                    if j < i {
                        assert(self.logs()[j].gen < gen);
                    } else if j > i {
                        assert(self.logs()[i as int].gen < self.logs()[j].gen);
                    }
                }
            }
            None
        }
    }

    /// The highest generation, if there is any log.
    pub fn max_gen(&self) -> (r: Option<u64>)
        requires
            self.wf(),
        ensures
            match r {
                Some(gen) => self.logs().len() > 0 && gen == self.logs().last().gen,
                None => self.logs().len() == 0,
            },
    {
        if self.logs.len() == 0 {
            None
        } else {
            Some(self.logs[self.logs.len() - 1].gen)
        }
    }

    /// Makes `data` the log of generation `gen`, in place of the one the
    /// directory had for it, if any.
    #[verifier::rlimit(40)]
    pub fn insert(&mut self, gen: u64, data: Vec<u8>)
        requires
            old(self).wf(),
        ensures
            final(self).wf(),
            final(self)@ == old(self)@.insert(gen, data@),
    {
        let i = self.lower_bound(gen);
        let ghost log = LogImage { gen, bytes: data@ };
        if i < self.logs.len() && self.logs[i].gen == gen {
            proof {
                lemma_update_log(self.logs(), i as int, data@);
            }
            self.logs.set(i, LogFile { gen, data });
            proof {
                assert(self.logs() =~= old(self).logs().update(i as int, log));
            }
        } else {
            proof {
                assert forall|j: int| i <= j < self.logs().len() implies gen < (
                #[trigger] self.logs()[j]).gen by {
                    if i < j {
                        assert(self.logs()[i as int].gen < self.logs()[j].gen);
                    }
                }
                lemma_insert_log(self.logs(), i as int, log);
            }
            self.logs.insert(i, LogFile { gen, data });
            proof {
                assert(self.logs() =~= old(self).logs().insert(i as int, log));
            }
        }
    }

    /// Adds an empty log of a generation above all that the directory has.
    pub fn push_log(&mut self, gen: u64)
        requires
            old(self).wf(),
            old(self).logs().len() > 0 ==> old(self).logs().last().gen < gen,
        ensures
            final(self).wf(),
            final(self).logs() == old(self).logs().push(
                LogImage { gen, bytes: Seq::<u8>::empty() },
            ),
            final(self)@ == old(self)@.insert(gen, Seq::<u8>::empty()),
            final(self).total() == old(self).total(),
    {
        let ghost log = LogImage { gen, bytes: Seq::<u8>::empty() };
        proof {
            let n = self.logs().len() as int;
            assert forall|j: int| 0 <= j < n implies (#[trigger] self.logs()[j]).gen < gen by {
                if j < n - 1 {
                    assert(self.logs()[j].gen < self.logs()[n - 1].gen);
                }
            }
            lemma_insert_log(self.logs(), n, log);
            assert(self.logs().insert(n, log) =~= self.logs().push(log));
            assert(self.logs().push(log).drop_last() =~= self.logs());
        }
        self.logs.push(LogFile { gen, data: Vec::new() });
        proof {
            assert(self.logs() =~= old(self).logs().push(log));
        }
    }

    /// A reader on the log at position `i`, at its first byte.
    pub fn reader(&self, i: usize) -> (reader: BufReaderWithPos<'_>)
        requires
            i < self.logs().len(),
        ensures
            reader.bytes() == self.logs()[i as int].bytes,
            reader.position() == 0,
    {
        BufReaderWithPos::new(self.logs[i].data.as_slice())
    }

    /// Appends `bytes` to the log of the highest generation, and returns
    /// the position at which they begin.
    #[verifier::rlimit(40)]
    pub fn append_last(&mut self, bytes: &[u8]) -> (start: u64)
        requires
            old(self).wf(),
            old(self).logs().len() > 0,
        ensures
            final(self).wf(),
            start == old(self).logs().last().bytes.len(),
            final(self).logs() == old(self).logs().update(
                old(self).logs().len() - 1,
                LogImage {
                    gen: old(self).logs().last().gen,
                    bytes: old(self).logs().last().bytes + bytes@,
                },
            ),
            final(self)@ == old(self)@.insert(
                old(self).logs().last().gen,
                old(self).logs().last().bytes + bytes@,
            ),
            final(self).total() == old(self).total() + bytes@.len(),
    {
        let last = self.logs.len() - 1;
        let ghost before = self.logs();
        let ghost log = LogImage { gen: before.last().gen, bytes: before.last().bytes + bytes@ };
        proof {
            lemma_update_log(before, last as int, log.bytes);
            assert(before.update(last as int, log).drop_last() =~= before.drop_last());
        }
        let file = self.logs.pop().unwrap();
        assert(file@ == before.last());
        assert(self.logs() =~= before.drop_last());
        let mut writer = BufWriterWithPos::new(file.data);
        let start = writer.pos();
        writer.write(bytes);
        writer.flush();
        let file = LogFile { gen: file.gen, data: writer.into_inner() };
        assert(file@ == log);
        self.logs.push(file);
        proof {
            assert forall|i: int| 0 <= i < before.len() implies self.logs()[i] == before.update(
                last as int,
                log,
            )[i] by {
                if i < last {
                    assert(self.logs()[i] == before.drop_last()[i]);
                }
            }
            assert(self.logs() =~= before.update(last as int, log));
        }
        start
    }
}

impl View for LogDir {
    type V = Map<u64, Seq<u8>>;

    open spec fn view(&self) -> Map<u64, Seq<u8>> {
        files_of(self.logs())
    }
}

/// One operation on the files of the database directory.
#[derive(Debug)]
pub enum FileOp {
    /// Create the log of generation `gen`, empty, unless it exists.
    Create { gen: u64 },
    /// Append `bytes` to the log of generation `gen`.
    Append { gen: u64, bytes: Vec<u8> },
    /// Delete the log of generation `gen`.
    Remove { gen: u64 },
}

/// A file operation as contracts speak of it.
pub enum FileStep {
    Create { gen: u64 },
    Append { gen: u64, bytes: Seq<u8> },
    Remove { gen: u64 },
}

impl View for FileOp {
    type V = FileStep;

    open spec fn view(&self) -> FileStep {
        match self {
            FileOp::Create { gen } => FileStep::Create { gen: *gen },
            FileOp::Append { gen, bytes } => FileStep::Append { gen: *gen, bytes: bytes@ },
            FileOp::Remove { gen } => FileStep::Remove { gen: *gen },
        }
    }
}

/// The operations of `ops` as contracts speak of them.
pub open spec fn steps_of(ops: Seq<FileOp>) -> Seq<FileStep> {
    Seq::new(ops.len(), |i: int| ops[i]@)
}

/// The directory after one operation.
pub open spec fn apply_step(files: Map<u64, Seq<u8>>, step: FileStep) -> Map<u64, Seq<u8>> {
    match step {
        FileStep::Create { gen } => if files.dom().contains(gen) {
            files
        } else {
            files.insert(gen, Seq::<u8>::empty())
        },
        FileStep::Append { gen, bytes } => if files.dom().contains(gen) {
            files.insert(gen, files[gen] + bytes)
        } else {
            files.insert(gen, bytes)
        },
        FileStep::Remove { gen } => files.remove(gen),
    }
}

/// The directory after the operations of `steps`, first to last.
pub open spec fn apply_steps(files: Map<u64, Seq<u8>>, steps: Seq<FileStep>) -> Map<u64, Seq<u8>>
    decreases steps.len(),
{
    if steps.len() == 0 {
        files
    } else {
        apply_step(apply_steps(files, steps.drop_last()), steps.last())
    }
}

/// Doing one run of operations and then another is doing the two runs in a
/// row.
pub proof fn lemma_apply_concat(files: Map<u64, Seq<u8>>, a: Seq<FileStep>, b: Seq<FileStep>)
    ensures
        apply_steps(files, a + b) == apply_steps(apply_steps(files, a), b),
    decreases b.len(),
{
    if b.len() == 0 {
        assert(a + b =~= a);
    } else {
        lemma_apply_concat(files, a, b.drop_last());
        assert((a + b).drop_last() =~= a + b.drop_last());
    }
}

/// A run of one operation.
pub proof fn lemma_apply_one(files: Map<u64, Seq<u8>>, step: FileStep)
    ensures
        apply_steps(files, seq![step]) == apply_step(files, step),
{
    assert(seq![step].drop_last() =~= Seq::<FileStep>::empty());
    reveal_with_fuel(apply_steps, 2);
}

/// The operations of two runs of `FileOp`s in a row.
pub proof fn lemma_steps_concat(a: Seq<FileOp>, b: Seq<FileOp>)
    ensures
        steps_of(a + b) == steps_of(a) + steps_of(b),
{
    assert(steps_of(a + b) =~= steps_of(a) + steps_of(b));
}

} // verus!
