//! What holds of the store over any run of mutations.
//!
//! A history is a run of stores in which each is the one before it after a
//! `set` or a `remove`, as the contracts of those two describe it. The laws
//! say what the last store of a history holds, whenever and however often
//! the store compacted on the way.

use crate::compaction::lemma_packing_all;
use crate::index::live_bytes;
use crate::kv::{
    contents_step, lemma_compacted, lemma_put_contents, lemma_rm_contents, KvStore,
    COMPACTION_THRESHOLD,
};
use crate::logdir::{total_bytes, LogImage};
use crate::record::{framed, is_record, Record};
use crate::replay::{fresh, lemma_push_keeps_slot, replay_dir};
use vstd::prelude::*;

verus! {

/// The contents after the mutations of `steps`, first to last.
pub open spec fn contents_after(contents: Map<Seq<char>, Seq<char>>, steps: Seq<Record>) -> Map<
    Seq<char>,
    Seq<char>,
>
    decreases steps.len(),
{
    if steps.len() == 0 {
        contents
    } else {
        contents_step(contents_after(contents, steps.drop_last()), steps.last())
    }
}

/// Store `i + 1` is store `i` after mutation `i`.
pub open spec fn step_taken(stores: Seq<KvStore>, steps: Seq<Record>, i: int) -> bool {
    stores[i + 1].follows(stores[i], steps[i], framed(steps[i]))
}

/// `stores` is a run of stores that begins with a well-formed one and then
/// takes the mutations of `steps`, one after another.
pub open spec fn history(stores: Seq<KvStore>, steps: Seq<Record>) -> bool {
    &&& stores.len() == steps.len() + 1
    &&& stores[0].wf()
    &&& forall|i: int| 0 <= i < steps.len() ==> #[trigger] step_taken(stores, steps, i)
}

/// Store `i + 1` is store `i` with record `i` appended and nothing else
/// done: a store that never compacts.
pub open spec fn step_appended(stores: Seq<KvStore>, steps: Seq<Record>, i: int) -> bool {
    &&& is_record(framed(steps[i]), steps[i])
    &&& steps[i] is Rm ==> stores[i]@.dom().contains(steps[i].key())
    &&& stores[i + 1].appended(stores[i], framed(steps[i]))
}

/// The same run as `history`, of a store that never compacts.
pub open spec fn plain_history(stores: Seq<KvStore>, steps: Seq<Record>) -> bool {
    &&& stores.len() == steps.len() + 1
    &&& stores[0].wf()
    &&& forall|i: int| 0 <= i < steps.len() ==> #[trigger] step_appended(stores, steps, i)
}

/// A compacted store maps every key to the value it had, counts no stale
/// byte, holds the live records and nothing else, and appends to a later
/// generation.
#[verifier::rlimit(40)]
pub proof fn law_compaction_keeps_contents(before: KvStore, after: KvStore)
    requires
        before.wf(),
        after.compacted_from(before),
    ensures
        after@ == before@,
        after.stale() == 0,
        total_bytes(after.logs()) == live_bytes(after.slots()),
        live_bytes(after.slots()) == live_bytes(before.slots()),
        after.active_gen() > before.active_gen(),
{
    let gen = (before.active_gen() + 1) as u64;
    assert forall|j: int| 0 <= j < before.slots().len() implies crate::replay::valid_slot(
        before.logs(),
        #[trigger] before.slots()[j],
    ) by {}
    lemma_packing_all(before.logs(), before.slots(), gen, before.slots().len() as int);
    assert(before.slots().take(before.slots().len() as int) =~= before.slots());
    assert(crate::compaction::moved(before.slots(), gen).take(before.slots().len() as int)
        =~= crate::compaction::moved(before.slots(), gen));
    lemma_compacted(before, after);
}

/// One mutation: the store stays well formed, its contents change as the
/// mutation says, its stale bytes stay below the threshold, and its active
/// generation does not go down.
#[verifier::rlimit(40)]
pub proof fn law_step(before: KvStore, after: KvStore, rec: Record, bytes: Seq<u8>)
    requires
        before.wf(),
        after.follows(before, rec, bytes),
    ensures
        after.wf(),
        after@ == contents_step(before@, rec),
        after.counted() < COMPACTION_THRESHOLD,
        after.active_gen() >= before.active_gen(),
{
    let mid = choose|mid: KvStore| #[trigger]
        mid.appended(before, bytes) && after.settled_from(mid);
    match rec {
        Record::Put { key, value } => {
            lemma_put_contents(before, mid, key, bytes);
        },
        Record::Rm { key } => {
            lemma_rm_contents(before, mid, key, bytes);
        },
    }
    if mid.counted() >= COMPACTION_THRESHOLD {
        law_compaction_keeps_contents(mid, after);
    }
}

/// The same for a store that never compacts.
pub proof fn law_plain_step(before: KvStore, after: KvStore, rec: Record)
    requires
        before.wf(),
        is_record(framed(rec), rec),
        after.appended(before, framed(rec)),
    ensures
        after.wf(),
        after@ == contents_step(before@, rec),
        after.active_gen() == before.active_gen(),
{
    match rec {
        Record::Put { key, value } => {
            lemma_put_contents(before, after, key, framed(rec));
        },
        Record::Rm { key } => {
            lemma_rm_contents(before, after, key, framed(rec));
        },
    }
}

/// The first `n` mutations of a history are a history.
pub proof fn lemma_history_prefix(stores: Seq<KvStore>, steps: Seq<Record>, n: int)
    requires
        history(stores, steps),
        0 <= n <= steps.len(),
    ensures
        history(stores.take(n + 1), steps.take(n)),
{
    let stores0 = stores.take(n + 1);
    let steps0 = steps.take(n);
    assert forall|i: int| 0 <= i < steps0.len() implies #[trigger] step_taken(
        stores0,
        steps0,
        i,
    ) by {
        assert(step_taken(stores, steps, i));
    }
}

/// A history: the last store of it is well formed, it holds what the
/// mutations make of the contents of the first, and its active generation
/// is not below that of the first.
#[verifier::rlimit(40)]
pub proof fn law_history(stores: Seq<KvStore>, steps: Seq<Record>)
    requires
        history(stores, steps),
    ensures
        stores.last().wf(),
        stores.last()@ == contents_after(stores[0]@, steps),
        stores[0].active_gen() <= stores.last().active_gen(),
    decreases steps.len(),
{
    if steps.len() > 0 {
        let n = steps.len() as int;
        lemma_history_prefix(stores, steps, n - 1);
        assert(stores.take(n) =~= stores.drop_last());
        assert(steps.take(n - 1) =~= steps.drop_last());
        law_history(stores.drop_last(), steps.drop_last());
        assert(step_taken(stores, steps, n - 1));
        law_step(stores[n - 1], stores[n], steps[n - 1], framed(steps[n - 1]));
    }
}

/// The first `n` mutations of the history of a store that never compacts
/// are such a history.
pub proof fn lemma_plain_history_prefix(stores: Seq<KvStore>, steps: Seq<Record>, n: int)
    requires
        plain_history(stores, steps),
        0 <= n <= steps.len(),
    ensures
        plain_history(stores.take(n + 1), steps.take(n)),
{
    let stores0 = stores.take(n + 1);
    let steps0 = steps.take(n);
    assert forall|i: int| 0 <= i < steps0.len() implies #[trigger] step_appended(
        stores0,
        steps0,
        i,
    ) by {
        assert(step_appended(stores, steps, i));
    }
}

/// The same for a store that never compacts.
#[verifier::rlimit(40)]
pub proof fn law_plain_history(stores: Seq<KvStore>, steps: Seq<Record>)
    requires
        plain_history(stores, steps),
    ensures
        stores.last().wf(),
        stores.last()@ == contents_after(stores[0]@, steps),
    decreases steps.len(),
{
    if steps.len() > 0 {
        let n = steps.len() as int;
        lemma_plain_history_prefix(stores, steps, n - 1);
        assert(stores.take(n) =~= stores.drop_last());
        assert(steps.take(n - 1) =~= steps.drop_last());
        law_plain_history(stores.drop_last(), steps.drop_last());
        assert(step_appended(stores, steps, n - 1));
        law_plain_step(stores[n - 1], stores[n], steps[n - 1]);
    }
}

/// What the mutations make of a key that mutation `i` is the last to
/// touch: the value that it sets, or no value where it removes the key.
pub proof fn lemma_last_touch(
    contents: Map<Seq<char>, Seq<char>>,
    steps: Seq<Record>,
    i: int,
)
    requires
        0 <= i < steps.len(),
        forall|j: int| i < j < steps.len() ==> (#[trigger] steps[j]).key() != steps[i].key(),
    ensures
        contents_after(contents, steps) == contents_step(
            contents_after(contents, steps),
            steps[i],
        ),
    decreases steps.len(),
{
    let key = steps[i].key();
    let prev = contents_after(contents, steps.drop_last());
    if i == steps.len() - 1 {
        assert(contents_step(prev, steps[i]) =~= contents_step(
            contents_step(prev, steps[i]),
            steps[i],
        ));
    } else {
        let steps0 = steps.drop_last();
        assert forall|j: int| i < j < steps0.len() implies (#[trigger] steps0[j]).key()
            != steps0[i].key() by {
            assert(steps[j].key() != steps[i].key());
        }
        lemma_last_touch(contents, steps0, i);
        let last = steps.last();
        assert(last.key() != key);
        assert(contents_step(contents_step(prev, steps[i]), last) =~= contents_step(
            contents_step(prev, last),
            steps[i],
        ));
    }
}

/// After any history, a key holds the value that was set for it last,
/// which is what `get` returns.
pub proof fn law_round_trip(
    stores: Seq<KvStore>,
    steps: Seq<Record>,
    i: int,
    key: Seq<char>,
    value: Seq<char>,
)
    requires
        history(stores, steps),
        0 <= i < steps.len(),
        steps[i] == (Record::Put { key, value }),
        forall|j: int| i < j < steps.len() ==> (#[trigger] steps[j]).key() != key,
    ensures
        stores.last().wf(),
        stores.last()@.dom().contains(key),
        stores.last()@[key] == value,
{
    law_history(stores, steps);
    lemma_last_touch(stores[0]@, steps, i);
}

/// After any history, a key that was removed, and not set since, has no
/// value, so `get` returns `None` for it.
pub proof fn law_tombstone(stores: Seq<KvStore>, steps: Seq<Record>, i: int, key: Seq<char>)
    requires
        history(stores, steps),
        0 <= i < steps.len(),
        steps[i] == (Record::Rm { key }),
        forall|j: int| i < j < steps.len() ==> (#[trigger] steps[j]).key() != key,
    ensures
        stores.last().wf(),
        !stores.last()@.dom().contains(key),
{
    law_history(stores, steps);
    lemma_last_touch(stores[0]@, steps, i);
}

/// A store opened on the directory of another has its contents, and the
/// next active generation. The directory of a well-formed store can always
/// be replayed, so `open` does not fail on it.
#[verifier::rlimit(40)]
pub proof fn law_reopen(closed: KvStore, opened: KvStore)
    requires
        closed.wf(),
        opened.opened_from(closed.logs()),
    ensures
        replay_dir(fresh(), closed.logs()) is Some,
        opened@ == closed@,
        opened.index() == closed.index(),
        opened.active_gen() == closed.active_gen() + 1,
{
    let logs = closed.logs();
    let added = LogImage { gen: opened.active_gen(), bytes: Seq::<u8>::empty() };
    assert(opened.logs().drop_last() =~= logs);
    assert(logs[logs.len() - 1].gen < opened.logs()[logs.len() as int].gen);
    assert forall|key: Seq<char>| opened@.dom().contains(key) implies opened@[key]
        == closed@[key] by {
        let i = crate::index::slot_of(closed.slots(), key);
        crate::index::lemma_map_of_at(closed.slots(), i);
        lemma_push_keeps_slot(logs, added, closed.slots()[i]);
    }
    assert(opened@ =~= closed@);
}

/// Compaction cannot be observed: a store that compacts and one that never
/// does, taken from the same contents through the same mutations, end with
/// the same contents.
pub proof fn law_compaction_unobservable(
    stores: Seq<KvStore>,
    plain: Seq<KvStore>,
    steps: Seq<Record>,
)
    requires
        history(stores, steps),
        plain_history(plain, steps),
        stores[0]@ == plain[0]@,
    ensures
        stores.last()@ == plain.last()@,
{
    law_history(stores, steps);
    law_plain_history(plain, steps);
}

/// Every byte of the logs is live or stale. After a `set` or a `remove`
/// the stale bytes are below the threshold, so the logs hold less than the
/// live records and the threshold together.
pub proof fn law_bounded_growth(store: KvStore)
    requires
        store.wf(),
        store.counted() < COMPACTION_THRESHOLD,
    ensures
        total_bytes(store.logs()) == live_bytes(store.slots()) + store.stale(),
        total_bytes(store.logs()) < live_bytes(store.slots()) + COMPACTION_THRESHOLD,
{
}

/// The active generation is the highest of the directory.
pub proof fn law_active_is_highest(store: KvStore, i: int)
    requires
        store.wf(),
        0 <= i < store.logs().len(),
    ensures
        store.logs()[i].gen <= store.active_gen(),
{
    if i < store.logs().len() - 1 {
        assert(store.logs()[i].gen < store.logs()[store.logs().len() - 1].gen);
    }
}

/// Generations only go up: a store that is opened on the directory that a
/// history leaves appends to a generation above the one that the history
/// began with, and above every generation of the directory.
pub proof fn law_generations_ascend(
    stores: Seq<KvStore>,
    steps: Seq<Record>,
    reopened: KvStore,
    i: int,
)
    requires
        history(stores, steps),
        reopened.opened_from(stores.last().logs()),
        0 <= i < stores.last().logs().len(),
    ensures
        stores[0].active_gen() < reopened.active_gen(),
        stores.last().logs()[i].gen < reopened.active_gen(),
{
    law_history(stores, steps);
    law_reopen(stores.last(), reopened);
    law_active_is_highest(stores.last(), i);
}

/// What happens to a store in the lifetime of its directory: a mutation,
/// or the store is closed and another is opened on the directory.
pub enum Event {
    Mutation(Record),
    Reopen,
}

/// Store `i + 1` is store `i` after event `i`.
pub open spec fn event_taken(stores: Seq<KvStore>, events: Seq<Event>, i: int) -> bool {
    match events[i] {
        Event::Mutation(rec) => stores[i + 1].follows(stores[i], rec, framed(rec)),
        Event::Reopen => stores[i + 1].opened_from(stores[i].logs()),
    }
}

/// `stores` is a run of stores that begins with a well-formed one and then
/// goes through the events of `events`, one after another.
pub open spec fn lifetime(stores: Seq<KvStore>, events: Seq<Event>) -> bool {
    &&& stores.len() == events.len() + 1
    &&& stores[0].wf()
    &&& forall|i: int| 0 <= i < events.len() ==> #[trigger] event_taken(stores, events, i)
}

/// The contents after the events of `events`: what its mutations make of
/// them, whatever is reopened in between.
pub open spec fn contents_through(contents: Map<Seq<char>, Seq<char>>, events: Seq<Event>) -> Map<
    Seq<char>,
    Seq<char>,
>
    decreases events.len(),
{
    if events.len() == 0 {
        contents
    } else {
        let before = contents_through(contents, events.drop_last());
        match events.last() {
            Event::Mutation(rec) => contents_step(before, rec),
            Event::Reopen => before,
        }
    }
}

/// The number of times that the store is reopened in `events`.
pub open spec fn reopens(events: Seq<Event>) -> int
    decreases events.len(),
{
    if events.len() == 0 {
        0
    } else {
        reopens(events.drop_last()) + (if events.last() is Reopen {
            1int
        } else {
            0int
        })
    }
}

/// The first `n` events of a lifetime are a lifetime.
pub proof fn lemma_lifetime_prefix(stores: Seq<KvStore>, events: Seq<Event>, n: int)
    requires
        lifetime(stores, events),
        0 <= n <= events.len(),
    ensures
        lifetime(stores.take(n + 1), events.take(n)),
{
    let stores0 = stores.take(n + 1);
    let events0 = events.take(n);
    assert forall|i: int| 0 <= i < events0.len() implies #[trigger] event_taken(
        stores0,
        events0,
        i,
    ) by {
        assert(event_taken(stores, events, i));
    }
}

/// Over the lifetime of a directory, with any mutations and any number of
/// reopenings: the store at its end is well formed, it holds what the
/// mutations make of the contents at the beginning, and its active
/// generation is above that of the beginning by at least the number of
/// reopenings, so it never goes down.
#[verifier::rlimit(40)]
pub proof fn law_lifetime(stores: Seq<KvStore>, events: Seq<Event>)
    requires
        lifetime(stores, events),
    ensures
        stores.last().wf(),
        stores.last()@ == contents_through(stores[0]@, events),
        stores[0].active_gen() + reopens(events) <= stores.last().active_gen(),
    decreases events.len(),
{
    if events.len() > 0 {
        let n = events.len() as int;
        lemma_lifetime_prefix(stores, events, n - 1);
        assert(stores.take(n) =~= stores.drop_last());
        assert(events.take(n - 1) =~= events.drop_last());
        law_lifetime(stores.drop_last(), events.drop_last());
        assert(event_taken(stores, events, n - 1));
        match events[n - 1] {
            Event::Mutation(rec) => {
                law_step(stores[n - 1], stores[n], rec, framed(rec));
            },
            Event::Reopen => {
                law_reopen(stores[n - 1], stores[n]);
            },
        }
    }
}

/// The logs say it all: two well-formed stores with the same logs have the
/// same index, in the same order, the same count of stale bytes, the same
/// active generation, and the same contents.
pub proof fn law_logs_determine_store(a: KvStore, b: KvStore)
    requires
        a.wf(),
        b.wf(),
        a.logs() == b.logs(),
    ensures
        a.index() == b.index(),
        a.slots() == b.slots(),
        a.counted() == b.counted(),
        a.active_gen() == b.active_gen(),
        a@ == b@,
{
    crate::index::lemma_slots_determined(a.slots(), b.slots());
    assert(a@ =~= b@);
}

/// The directory says it all: two well-formed stores with the same files
/// have the same logs.
pub proof fn law_files_determine_logs(a: KvStore, b: KvStore)
    requires
        a.wf(),
        b.wf(),
        a.files() == b.files(),
    ensures
        a.logs() == b.logs(),
{
    crate::logdir::lemma_logs_determined(a.logs(), b.logs());
}

} // verus!
