//! Compaction as contracts speak of it: the live records, packed one after
//! another in the order of their keys, and where each of them comes to lie.

use crate::index::{
    ascending, key_before, lemma_bytes_before_irreflexive, lemma_insert_slot, live_bytes, map_of,
    Location, Slot,
};
use crate::logdir::{
    apply_step, apply_steps, files_of, gens_ascend, lemma_files_at, log_of, FileStep, LogImage,
};
use crate::record::{lemma_record_bounds, lemma_record_moves, record_at, Record};
use crate::replay::{
    fresh, holds_put, lemma_replay_append, lemma_slot_chunk, replay_log, valid_slot, value_at,
    value_of, ReplayState,
};
use vstd::prelude::*;
use vstd::utf8::encode_utf8;

verus! {

/// The bytes of the record that `slot` points at.
pub open spec fn chunk_of(logs: Seq<LogImage>, slot: Slot) -> Seq<u8> {
    logs[log_of(logs, slot.loc.gen)].bytes.subrange(slot.loc.pos, slot.loc.pos + slot.loc.len)
}

/// The records that `slots` point at, one after another.
pub open spec fn packed(logs: Seq<LogImage>, slots: Seq<Slot>) -> Seq<u8>
    decreases slots.len(),
{
    if slots.len() == 0 {
        Seq::empty()
    } else {
        packed(logs, slots.drop_last()) + chunk_of(logs, slots.last())
    }
}

/// The entries of `slots` after their records are packed into the log
/// `gen`: each keeps its key and its length, and begins where the lengths
/// of those before it end.
pub open spec fn moved(slots: Seq<Slot>, gen: u64) -> Seq<Slot> {
    Seq::new(
        slots.len(),
        |i: int|
            Slot {
                key: slots[i].key,
                loc: Location { gen, pos: live_bytes(slots.take(i)), len: slots[i].loc.len },
            },
    )
}

/// The file operations of a compaction: create the new active log and the
/// log of the packed records, fill the latter, and delete every log that
/// was there, lowest generation first.
pub open spec fn compaction_steps(logs: Seq<LogImage>, active: u64, bytes: Seq<u8>) -> Seq<
    FileStep,
> {
    seq![
        FileStep::Create { gen: (active + 2) as u64 },
        FileStep::Create { gen: (active + 1) as u64 },
        FileStep::Append { gen: (active + 1) as u64, bytes },
    ] + Seq::new(logs.len(), |i: int| FileStep::Remove { gen: logs[i].gen })
}

/// The logs after a compaction: the packed records, and an empty active
/// log.
pub open spec fn compacted_logs(active: u64, bytes: Seq<u8>) -> Seq<LogImage> {
    seq![
        LogImage { gen: (active + 1) as u64, bytes },
        LogImage { gen: (active + 2) as u64, bytes: Seq::empty() },
    ]
}

/// The state of a compaction that has packed the first `i` entries: `c` is
/// the packed log so far and `s` the entries that point into it.
pub open spec fn packing(
    logs: Seq<LogImage>,
    slots: Seq<Slot>,
    gen: u64,
    i: int,
    c: Seq<u8>,
    s: Seq<Slot>,
) -> bool {
    &&& 0 <= i <= slots.len()
    &&& c == packed(logs, slots.take(i))
    &&& s == moved(slots, gen).take(i)
    &&& c.len() == live_bytes(slots.take(i))
    &&& live_bytes(s) == c.len()
    &&& ascending(s)
    &&& replay_log(fresh(), gen, c, 0) == Some(ReplayState { index: map_of(s), stale: 0 })
    &&& forall|j: int|
        0 <= j < i ==> holds_put(c, #[trigger] s[j]) && value_at(c, s[j]) == value_of(
            logs,
            slots[j],
        )
}

/// Before any entry is packed.
pub proof fn lemma_packing_start(logs: Seq<LogImage>, slots: Seq<Slot>, gen: u64)
    ensures
        packing(logs, slots, gen, 0, Seq::empty(), Seq::empty()),
{
    assert(slots.take(0) =~= Seq::<Slot>::empty());
    assert(moved(slots, gen).take(0) =~= Seq::<Slot>::empty());
    assert(map_of(Seq::<Slot>::empty()) =~= Map::<Seq<char>, Location>::empty());
}

/// Packing entry `i`: its record is appended to the packed log, and its
/// entry, moved there, is added after the entries packed before.
#[verifier::rlimit(40)]
pub proof fn lemma_packing_step(
    logs: Seq<LogImage>,
    slots: Seq<Slot>,
    gen: u64,
    i: int,
    c: Seq<u8>,
    s: Seq<Slot>,
)
    requires
        gens_ascend(logs),
        ascending(slots),
        forall|j: int| 0 <= j < slots.len() ==> valid_slot(logs, #[trigger] slots[j]),
        packing(logs, slots, gen, i, c, s),
        i < slots.len(),
    ensures
        packing(
            logs,
            slots,
            gen,
            i + 1,
            c + chunk_of(logs, slots[i]),
            s.push(
                Slot {
                    key: slots[i].key,
                    loc: Location { gen, pos: c.len() as int, len: slots[i].loc.len },
                },
            ),
        ),
        forall|j: int| 0 <= j < s.len() ==> key_before(#[trigger] s[j].key, slots[i].key),
        chunk_of(logs, slots[i]).len() == slots[i].loc.len,
{
    let old_slot = slots[i];
    let chunk = chunk_of(logs, old_slot);
    let slot = Slot {
        key: old_slot.key,
        loc: Location { gen, pos: c.len() as int, len: old_slot.loc.len },
    };
    let c2 = c + chunk;
    let s2 = s.push(slot);
    let at = log_of(logs, old_slot.loc.gen);
    assert(valid_slot(logs, old_slot));
    lemma_slot_chunk(logs, old_slot, at);
    let rec = Record::Put { key: old_slot.key, value: value_of(logs, old_slot) };
    lemma_record_bounds(chunk, 0);
    assert(slots.take(i + 1).drop_last() =~= slots.take(i));
    assert(s2 =~= moved(slots, gen).take(i + 1));
    assert forall|j: int| 0 <= j < s.len() implies key_before(
        #[trigger] s[j].key,
        slots[i].key,
    ) by {
        assert(s[j].key == slots[j].key);
        assert(key_before(slots[j].key, slots[i].key));
    }
    lemma_insert_slot(s, i, slot);
    assert(s.insert(i, slot) =~= s2);
    lemma_replay_append(fresh(), gen, c, 0, chunk, rec);
    assert(!map_of(s).dom().contains(slot.key)) by {
        if map_of(s).dom().contains(slot.key) {
            let j = crate::index::slot_of(s, slot.key);
            assert(key_before(s[j].key, slot.key));
            lemma_bytes_before_irreflexive(encode_utf8(slot.key));
        }
    }
    assert(c2.subrange(c.len() as int, (c.len() + chunk.len()) as int) =~= chunk.subrange(
        0,
        chunk.len() as int,
    ));
    lemma_record_moves(chunk, 0, c2, c.len() as int);
    assert forall|j: int| 0 <= j < i + 1 implies holds_put(c2, #[trigger] s2[j]) && value_at(
        c2,
        s2[j],
    ) == value_of(logs, slots[j]) by {
        if j < i {
            assert(s2[j] == s[j]);
            assert(holds_put(c, s[j]));
            let pos = s[j].loc.pos;
            let end = record_at(c, pos).unwrap().1;
            lemma_record_bounds(c, pos);
            assert(c2.subrange(pos, end) =~= c.subrange(pos, end));
            lemma_record_moves(c, pos, c2, pos);
        }
    }
}

/// Packing every entry up to `i`, one after another.
pub proof fn lemma_packing_all(logs: Seq<LogImage>, slots: Seq<Slot>, gen: u64, i: int)
    requires
        gens_ascend(logs),
        ascending(slots),
        forall|j: int| 0 <= j < slots.len() ==> valid_slot(logs, #[trigger] slots[j]),
        0 <= i <= slots.len(),
    ensures
        packing(logs, slots, gen, i, packed(logs, slots.take(i)), moved(slots, gen).take(i)),
    decreases i,
{
    if i == 0 {
        lemma_packing_start(logs, slots, gen);
        assert(slots.take(0) =~= Seq::<Slot>::empty());
        assert(moved(slots, gen).take(0) =~= Seq::<Slot>::empty());
    } else {
        lemma_packing_all(logs, slots, gen, i - 1);
        lemma_packing_step(
            logs,
            slots,
            gen,
            i - 1,
            packed(logs, slots.take(i - 1)),
            moved(slots, gen).take(i - 1),
        );
    }
}

/// What the file operations of a compaction leave: the two new logs and
/// nothing else.
#[verifier::rlimit(40)]
pub proof fn lemma_compaction_steps(logs: Seq<LogImage>, active: u64, bytes: Seq<u8>)
    requires
        gens_ascend(logs),
        logs.len() > 0,
        logs.last().gen == active,
        active <= u64::MAX - 2,
    ensures
        apply_steps(files_of(logs), compaction_steps(logs, active, bytes)) == files_of(
            compacted_logs(active, bytes),
        ),
{
    let steps = compaction_steps(logs, active, bytes);
    lemma_removals(logs, active, bytes, logs.len() as int);
    assert(steps.take(3 + logs.len() as int) =~= steps);
    let done = apply_steps(files_of(logs), steps);
    let want = compacted_logs(active, bytes);
    lemma_files_at(want, 0);
    lemma_files_at(want, 1);
    assert forall|gen: u64| done.dom().contains(gen) <==> files_of(want).dom().contains(gen) by {
        if files_of(want).dom().contains(gen) {
            let x = log_of(want, gen);
            assert(gen == active + 1 || gen == active + 2);
            if crate::logdir::has_gen(logs, gen) {
                let j = log_of(logs, gen);
                if j < logs.len() - 1 {
                    assert(logs[j].gen < logs[logs.len() - 1].gen);
                }
            }
        }
        if done.dom().contains(gen) {
            if gen == active + 1 {
                assert(want[0].gen == gen);
            } else {
                assert(want[1].gen == gen);
            }
        }
    }
    assert(done =~= files_of(want));
}

/// The directory after the first three operations of a compaction and the
/// first `k` deletions.
pub open spec fn partly_removed(
    logs: Seq<LogImage>,
    active: u64,
    bytes: Seq<u8>,
    k: int,
) -> Map<u64, Seq<u8>> {
    let base = files_of(logs).insert((active + 2) as u64, Seq::empty()).insert(
        (active + 1) as u64,
        bytes,
    );
    Map::new(
        |gen: u64|
            base.dom().contains(gen) && !(exists|j: int| 0 <= j < k && logs[j].gen == gen),
        |gen: u64| base[gen],
    )
}

/// The deletions of a compaction, one by one.
#[verifier::rlimit(40)]
pub proof fn lemma_removals(logs: Seq<LogImage>, active: u64, bytes: Seq<u8>, k: int)
    requires
        gens_ascend(logs),
        logs.len() > 0,
        logs.last().gen == active,
        active <= u64::MAX - 2,
        0 <= k <= logs.len(),
    ensures
        apply_steps(files_of(logs), compaction_steps(logs, active, bytes).take(3 + k))
            == partly_removed(logs, active, bytes, k),
    decreases k,
{
    let steps = compaction_steps(logs, active, bytes);
    let files = files_of(logs);
    assert forall|j: int| 0 <= j < logs.len() implies (#[trigger] logs[j]).gen <= active by {
        if j < logs.len() - 1 {
            assert(logs[j].gen < logs[logs.len() - 1].gen);
        }
    }
    assert(!files.dom().contains((active + 1) as u64)) by {
        if crate::logdir::has_gen(logs, (active + 1) as u64) {
            let j = log_of(logs, (active + 1) as u64);
            assert(logs[j].gen <= active);
        }
    }
    assert(!files.dom().contains((active + 2) as u64)) by {
        if crate::logdir::has_gen(logs, (active + 2) as u64) {
            let j = log_of(logs, (active + 2) as u64);
            assert(logs[j].gen <= active);
        }
    }
    if k == 0 {
        let head = steps.take(3);
        assert(head.drop_last() =~= steps.take(2));
        assert(steps.take(2).drop_last() =~= steps.take(1));
        assert(steps.take(1).drop_last() =~= Seq::<FileStep>::empty());
        let m0 = apply_steps(files, Seq::<FileStep>::empty());
        assert(m0 == files);
        let m1 = apply_steps(files, steps.take(1));
        assert(m1 == apply_step(m0, steps[0]));
        let m2 = apply_steps(files, steps.take(2));
        assert(m2 == apply_step(m1, steps[1]));
        let m3 = apply_steps(files, head);
        assert(m3 == apply_step(m2, steps[2]));
        assert(m2[(active + 1) as u64] + bytes =~= bytes);
        assert(m3 =~= partly_removed(logs, active, bytes, 0));
    } else {
        lemma_removals(logs, active, bytes, k - 1);
        assert(steps.take(3 + k).drop_last() =~= steps.take(3 + k - 1));
        assert(steps.take(3 + k).last() == FileStep::Remove { gen: logs[k - 1].gen });
        let prev = partly_removed(logs, active, bytes, k - 1);
        assert(prev.remove(logs[k - 1].gen) =~= partly_removed(logs, active, bytes, k));
    }
}

} // verus!
