//! The index: for every live key, where its latest `Set` record lies.
//!
//! The entries are kept in ascending order of their keys' bytes, so that a
//! key is found by bisection and a walk of the index meets the keys in one
//! fixed order.

use vstd::prelude::*;
use vstd::utf8::encode_utf8;

verus! {

/// Where a record lies: the generation of its log, its first byte, and its
/// length.
#[derive(Clone, Copy, Debug, PartialEq, Eq)]
pub struct RecordArgs {
    pub log: u64,
    pub pos: u64,
    pub len: u64,
}

/// A record's place as contracts speak of it.
pub struct Location {
    pub gen: u64,
    pub pos: int,
    pub len: int,
}

impl View for RecordArgs {
    type V = Location;

    open spec fn view(&self) -> Location {
        Location { gen: self.log, pos: self.pos as int, len: self.len as int }
    }
}

impl RecordArgs {
    /// The place of the record that fills the bytes of `range` in the log
    /// of the generation given with it.
    pub fn from(args: (u64, std::ops::Range<u64>)) -> (r: RecordArgs)
        requires
            args.1.start <= args.1.end,
        ensures
            r@ == (Location {
                gen: args.0,
                pos: args.1.start as int,
                len: args.1.end - args.1.start,
            }),
    {
        let (log, range) = args;
        RecordArgs { log, pos: range.start, len: range.end - range.start }
    }
}

/// One entry of the index.
#[derive(Debug)]
pub struct IndexEntry {
    pub key: String,
    pub args: RecordArgs,
}

/// An entry as contracts speak of it.
pub struct Slot {
    pub key: Seq<char>,
    pub loc: Location,
}

impl View for IndexEntry {
    type V = Slot;

    open spec fn view(&self) -> Slot {
        Slot { key: self.key@, loc: self.args@ }
    }
}

/// How two keys stand to one another.
pub enum KeyOrder {
    Before,
    Same,
    After,
}

/// `a` comes before `b` in the order of the index: byte by byte, and a
/// proper prefix before what it is a prefix of.
pub open spec fn bytes_before(a: Seq<u8>, b: Seq<u8>) -> bool
    decreases a.len(),
{
    if b.len() == 0 {
        false
    } else if a.len() == 0 {
        true
    } else if a[0] != b[0] {
        a[0] < b[0]
    } else {
        bytes_before(a.drop_first(), b.drop_first())
    }
}

/// The key `a` comes before the key `b`: by the bytes of their UTF-8 form.
pub open spec fn key_before(a: Seq<char>, b: Seq<char>) -> bool {
    bytes_before(encode_utf8(a), encode_utf8(b))
}

/// The keys of `slots` ascend strictly.
pub open spec fn ascending(slots: Seq<Slot>) -> bool {
    forall|i: int, j: int| 0 <= i < j < slots.len() ==> key_before(slots[i].key, slots[j].key)
}

/// `slots` has an entry for `key`.
pub open spec fn has_key(slots: Seq<Slot>, key: Seq<char>) -> bool {
    exists|i: int| 0 <= i < slots.len() && slots[i].key == key
}

/// An index of the entry for `key`.
pub open spec fn slot_of(slots: Seq<Slot>, key: Seq<char>) -> int {
    choose|i: int| 0 <= i < slots.len() && slots[i].key == key
}

/// The map from key to place that `slots` stands for.
pub open spec fn map_of(slots: Seq<Slot>) -> Map<Seq<char>, Location> {
    Map::new(|key: Seq<char>| has_key(slots, key), |key: Seq<char>| slots[slot_of(slots, key)].loc)
}

/// The bytes that the records of `slots` take up together.
pub open spec fn live_bytes(slots: Seq<Slot>) -> int
    decreases slots.len(),
{
    if slots.len() == 0 {
        0
    } else {
        live_bytes(slots.drop_last()) + slots.last().loc.len
    }
}

pub proof fn lemma_bytes_before_irreflexive(a: Seq<u8>)
    ensures
        !bytes_before(a, a),
    decreases a.len(),
{
    if a.len() > 0 {
        lemma_bytes_before_irreflexive(a.drop_first());
    }
}

pub proof fn lemma_bytes_before_transitive(a: Seq<u8>, b: Seq<u8>, c: Seq<u8>)
    requires
        bytes_before(a, b),
        bytes_before(b, c),
    ensures
        bytes_before(a, c),
    decreases a.len(),
{
    if a.len() > 0 && a[0] == b[0] && b[0] == c[0] {
        lemma_bytes_before_transitive(a.drop_first(), b.drop_first(), c.drop_first());
    }
}

/// Two keys with the same bytes are the same key.
pub proof fn lemma_key_bytes_injective(a: Seq<char>, b: Seq<char>)
    requires
        encode_utf8(a) == encode_utf8(b),
    ensures
        a == b,
{
    vstd::utf8::encode_utf8_decode_utf8(a);
    vstd::utf8::encode_utf8_decode_utf8(b);
}

/// In an ascending sequence no key occurs twice.
pub proof fn lemma_ascending_distinct(slots: Seq<Slot>, i: int, j: int)
    requires
        ascending(slots),
        0 <= i < slots.len(),
        0 <= j < slots.len(),
        slots[i].key == slots[j].key,
    ensures
        i == j,
{
    lemma_bytes_before_irreflexive(encode_utf8(slots[i].key));
    if i < j {
        assert(key_before(slots[i].key, slots[j].key));
    } else if j < i {
        assert(key_before(slots[j].key, slots[i].key));
    }
}

/// What `map_of` holds for the key of an entry.
pub proof fn lemma_map_of_at(slots: Seq<Slot>, i: int)
    requires
        ascending(slots),
        0 <= i < slots.len(),
    ensures
        map_of(slots).dom().contains(slots[i].key),
        map_of(slots)[slots[i].key] == slots[i].loc,
{
    let key = slots[i].key;
    assert(has_key(slots, key));
    lemma_ascending_distinct(slots, i, slot_of(slots, key));
}

/// Compares two byte strings in the order of the index.
pub fn order_of(a: &[u8], b: &[u8]) -> (r: KeyOrder)
    ensures
        r is Before <==> bytes_before(a@, b@),
        r is Same <==> a@ == b@,
        r is After <==> bytes_before(b@, a@),
{
    let mut i: usize = 0;
    proof {
        assert(a@.skip(0) =~= a@);
        assert(b@.skip(0) =~= b@);
    }
    while i < a.len() && i < b.len()
        invariant
            i <= a.len(),
            i <= b.len(),
            a@.subrange(0, i as int) == b@.subrange(0, i as int),
            bytes_before(a@, b@) == bytes_before(a@.skip(i as int), b@.skip(i as int)),
            bytes_before(b@, a@) == bytes_before(b@.skip(i as int), a@.skip(i as int)),
        decreases a.len() - i,
    {
        proof {
            assert(a@.skip(i as int).drop_first() =~= a@.skip(i + 1));
            assert(b@.skip(i as int).drop_first() =~= b@.skip(i + 1));
            assert(a@.skip(i as int)[0] == a@[i as int]);
            assert(b@.skip(i as int)[0] == b@[i as int]);
        }
        if a[i] < b[i] {
            assert(a@.subrange(0, i + 1)[i as int] != b@.subrange(0, i + 1)[i as int]);
            return KeyOrder::Before;
        } else if a[i] > b[i] {
            assert(a@.subrange(0, i + 1)[i as int] != b@.subrange(0, i + 1)[i as int]);
            return KeyOrder::After;
        }
        assert(a@.subrange(0, i + 1) =~= a@.subrange(0, i as int).push(a@[i as int]));
        assert(b@.subrange(0, i + 1) =~= b@.subrange(0, i as int).push(b@[i as int]));
        i += 1;
    }
    proof {
        assert(a@.subrange(0, a@.len() as int) =~= a@);
        assert(b@.subrange(0, b@.len() as int) =~= b@);
        if a@ == b@ {
            lemma_bytes_before_irreflexive(a@);
        }
    }
    if i < b.len() {
        assert(a@.skip(i as int).len() == 0);
        assert(a@.len() != b@.len());
        KeyOrder::Before
    } else if i < a.len() {
        assert(b@.skip(i as int).len() == 0);
        assert(a@.len() != b@.len());
        KeyOrder::After
    } else {
        assert(a@.skip(i as int).len() == 0);
        assert(b@.skip(i as int).len() == 0);
        KeyOrder::Same
    }
}

/// The bytes of two runs of entries add up.
pub proof fn lemma_live_bytes_concat(a: Seq<Slot>, b: Seq<Slot>)
    ensures
        live_bytes(a + b) == live_bytes(a) + live_bytes(b),
    decreases b.len(),
{
    if b.len() == 0 {
        assert(a + b =~= a);
    } else {
        lemma_live_bytes_concat(a, b.drop_last());
        assert((a + b).drop_last() =~= a + b.drop_last());
    }
}

/// The bytes of a single entry.
pub proof fn lemma_live_bytes_one(slot: Slot)
    ensures
        live_bytes(seq![slot]) == slot.loc.len,
{
    reveal_with_fuel(live_bytes, 2);
    assert(seq![slot].drop_last() =~= Seq::<Slot>::empty());
}

/// Putting a new key in at its place in the order: the map gains the key
/// and the bytes gain the record.
#[verifier::rlimit(40)]
pub proof fn lemma_insert_slot(slots: Seq<Slot>, i: int, slot: Slot)
    requires
        ascending(slots),
        0 <= i <= slots.len(),
        forall|j: int| 0 <= j < i ==> key_before(#[trigger] slots[j].key, slot.key),
        forall|j: int| i <= j < slots.len() ==> key_before(slot.key, #[trigger] slots[j].key),
    ensures
        ascending(slots.insert(i, slot)),
        map_of(slots.insert(i, slot)) == map_of(slots).insert(slot.key, slot.loc),
        live_bytes(slots.insert(i, slot)) == live_bytes(slots) + slot.loc.len,
{
    let after = slots.insert(i, slot);
    assert forall|x: int, y: int| 0 <= x < y < after.len() implies key_before(
        after[x].key,
        after[y].key,
    ) by {
        if x < i && y == i {
            assert(key_before(slots[x].key, slot.key));
        } else if x < i && y > i {
            assert(key_before(slots[x].key, slots[y - 1].key));
        } else if x == i {
            assert(key_before(slot.key, slots[y - 1].key));
        } else if x > i {
            assert(key_before(slots[x - 1].key, slots[y - 1].key));
        } else {
            assert(key_before(slots[x].key, slots[y].key));
        }
    }
    let expected = map_of(slots).insert(slot.key, slot.loc);
    assert forall|key: Seq<char>| map_of(after).dom().contains(key) <==> expected.dom().contains(
        key,
    ) by {
        if has_key(after, key) {
            let x = slot_of(after, key);
            if x < i {
                assert(slots[x].key == key);
            } else if x > i {
                assert(slots[x - 1].key == key);
            }
        }
        if has_key(slots, key) {
            let x = slot_of(slots, key);
            if x < i {
                assert(after[x].key == key);
            } else {
                assert(after[x + 1].key == key);
            }
        }
        if key == slot.key {
            assert(after[i].key == key);
        }
    }
    assert forall|key: Seq<char>| map_of(after).dom().contains(key) implies map_of(after)[key]
        == expected[key] by {
        let x = slot_of(after, key);
        lemma_map_of_at(after, x);
        if key == slot.key {
            lemma_ascending_distinct(after, x, i);
        } else if x < i {
            lemma_map_of_at(slots, x);
        } else if x > i {
            lemma_map_of_at(slots, x - 1);
        }
    }
    assert(map_of(after) =~= expected);
    assert(after =~= slots.subrange(0, i) + seq![slot] + slots.subrange(i, slots.len() as int));
    assert(slots =~= slots.subrange(0, i) + slots.subrange(i, slots.len() as int));
    lemma_live_bytes_concat(slots.subrange(0, i), slots.subrange(i, slots.len() as int));
    lemma_live_bytes_concat(slots.subrange(0, i), seq![slot]);
    lemma_live_bytes_concat(
        slots.subrange(0, i) + seq![slot],
        slots.subrange(i, slots.len() as int),
    );
    lemma_live_bytes_one(slot);
}

/// Giving the key of entry `i` a new place: the map maps the key to it and
/// the bytes trade the old record for the new.
#[verifier::rlimit(40)]
pub proof fn lemma_update_slot(slots: Seq<Slot>, i: int, loc: Location)
    requires
        ascending(slots),
        0 <= i < slots.len(),
    ensures
        ascending(slots.update(i, Slot { key: slots[i].key, loc })),
        map_of(slots.update(i, Slot { key: slots[i].key, loc })) == map_of(slots).insert(
            slots[i].key,
            loc,
        ),
        live_bytes(slots.update(i, Slot { key: slots[i].key, loc })) == live_bytes(slots)
            - slots[i].loc.len + loc.len,
{
    let slot = Slot { key: slots[i].key, loc };
    let after = slots.update(i, slot);
    assert forall|x: int, y: int| 0 <= x < y < after.len() implies key_before(
        after[x].key,
        after[y].key,
    ) by {
        assert(key_before(slots[x].key, slots[y].key));
    }
    let expected = map_of(slots).insert(slot.key, loc);
    assert forall|key: Seq<char>| map_of(after).dom().contains(key) <==> expected.dom().contains(
        key,
    ) by {
        if has_key(after, key) {
            let x = slot_of(after, key);
            assert(slots[x].key == key);
        }
        if has_key(slots, key) {
            let x = slot_of(slots, key);
            assert(after[x].key == key);
        }
        if key == slot.key {
            assert(after[i].key == key);
        }
    }
    assert forall|key: Seq<char>| map_of(after).dom().contains(key) implies map_of(after)[key]
        == expected[key] by {
        let x = slot_of(after, key);
        lemma_map_of_at(after, x);
        if key == slot.key {
            lemma_ascending_distinct(after, x, i);
        } else {
            lemma_map_of_at(slots, x);
        }
    }
    assert(map_of(after) =~= expected);
    assert(after =~= slots.subrange(0, i) + seq![slot] + slots.subrange(
        i + 1,
        slots.len() as int,
    ));
    assert(slots =~= slots.subrange(0, i) + seq![slots[i]] + slots.subrange(
        i + 1,
        slots.len() as int,
    ));
    lemma_live_bytes_concat(slots.subrange(0, i), seq![slot]);
    lemma_live_bytes_concat(slots.subrange(0, i), seq![slots[i]]);
    lemma_live_bytes_concat(
        slots.subrange(0, i) + seq![slot],
        slots.subrange(i + 1, slots.len() as int),
    );
    lemma_live_bytes_concat(
        slots.subrange(0, i) + seq![slots[i]],
        slots.subrange(i + 1, slots.len() as int),
    );
    lemma_live_bytes_one(slot);
    lemma_live_bytes_one(slots[i]);
}

/// Taking entry `i` out: the map loses its key and the bytes its record.
#[verifier::rlimit(40)]
pub proof fn lemma_remove_slot(slots: Seq<Slot>, i: int)
    requires
        ascending(slots),
        0 <= i < slots.len(),
    ensures
        ascending(slots.remove(i)),
        map_of(slots.remove(i)) == map_of(slots).remove(slots[i].key),
        live_bytes(slots.remove(i)) == live_bytes(slots) - slots[i].loc.len,
{
    let after = slots.remove(i);
    assert forall|x: int, y: int| 0 <= x < y < after.len() implies key_before(
        after[x].key,
        after[y].key,
    ) by {
        let ox = if x < i { x } else { x + 1 };
        let oy = if y < i { y } else { y + 1 };
        assert(key_before(slots[ox].key, slots[oy].key));
    }
    let expected = map_of(slots).remove(slots[i].key);
    assert forall|key: Seq<char>| map_of(after).dom().contains(key) <==> expected.dom().contains(
        key,
    ) by {
        if has_key(after, key) {
            let x = slot_of(after, key);
            let ox = if x < i { x } else { x + 1 };
            assert(slots[ox].key == key);
            if key == slots[i].key {
                lemma_ascending_distinct(slots, ox, i);
            }
        }
        if has_key(slots, key) && key != slots[i].key {
            let x = slot_of(slots, key);
            if x < i {
                assert(after[x].key == key);
            } else {
                assert(after[x - 1].key == key);
            }
        }
    }
    assert forall|key: Seq<char>| map_of(after).dom().contains(key) implies map_of(after)[key]
        == expected[key] by {
        let x = slot_of(after, key);
        let ox = if x < i { x } else { x + 1 };
        lemma_map_of_at(after, x);
        lemma_map_of_at(slots, ox);
        if key == slots[i].key {
            lemma_ascending_distinct(slots, ox, i);
        }
    }
    assert(map_of(after) =~= expected);
    assert(after =~= slots.subrange(0, i) + slots.subrange(i + 1, slots.len() as int));
    assert(slots =~= slots.subrange(0, i) + seq![slots[i]] + slots.subrange(
        i + 1,
        slots.len() as int,
    ));
    lemma_live_bytes_concat(slots.subrange(0, i), slots.subrange(i + 1, slots.len() as int));
    lemma_live_bytes_concat(slots.subrange(0, i), seq![slots[i]]);
    lemma_live_bytes_concat(
        slots.subrange(0, i) + seq![slots[i]],
        slots.subrange(i + 1, slots.len() as int),
    );
    lemma_live_bytes_one(slots[i]);
}

/// The order of the keys leaves one way to lay out the entries of a map:
/// two ascending runs of entries that stand for the same map are the same.
#[verifier::rlimit(40)]
pub proof fn lemma_slots_determined(a: Seq<Slot>, b: Seq<Slot>)
    requires
        ascending(a),
        ascending(b),
        map_of(a) == map_of(b),
    ensures
        a == b,
    decreases a.len(),
{
    if a.len() == 0 {
        if b.len() > 0 {
            lemma_map_of_at(b, 0);
            assert(has_key(a, b[0].key));
        }
        assert(a =~= b);
    } else if b.len() == 0 {
        lemma_map_of_at(a, 0);
        assert(has_key(b, a[0].key));
    } else {
        let la = a.len() - 1;
        let lb = b.len() - 1;
        lemma_map_of_at(a, la);
        lemma_map_of_at(b, lb);
        let j = slot_of(b, a[la].key);
        let i = slot_of(a, b[lb].key);
        assert(has_key(b, a[la].key));
        assert(has_key(a, b[lb].key));
        if a[la].key != b[lb].key {
            assert(key_before(b[j].key, b[lb].key));
            assert(key_before(a[i].key, a[la].key));
            lemma_bytes_before_transitive(
                encode_utf8(a[la].key),
                encode_utf8(b[lb].key),
                encode_utf8(a[la].key),
            );
            lemma_bytes_before_irreflexive(encode_utf8(a[la].key));
        }
        lemma_remove_slot(a, la);
        lemma_remove_slot(b, lb);
        assert(a.remove(la) =~= a.drop_last());
        assert(b.remove(lb) =~= b.drop_last());
        lemma_slots_determined(a.drop_last(), b.drop_last());
        assert(a =~= a.drop_last().push(a[la]));
        assert(b =~= b.drop_last().push(b[lb]));
    }
}

/// The index of the engine.
#[derive(Debug)]
pub struct Index {
    entries: Vec<IndexEntry>,
}

impl Index {
    /// The entries, in the order in which the index holds them.
    pub closed spec fn slots(&self) -> Seq<Slot> {
        Seq::new(self.entries@.len(), |i: int| self.entries@[i]@)
    }

    /// The entries ascend by key, so no key has two.
    pub open spec fn wf(&self) -> bool {
        ascending(self.slots())
    }

    /// The bytes that the indexed records take up together.
    pub open spec fn live(&self) -> int {
        live_bytes(self.slots())
    }

    /// An index without entries.
    pub fn new() -> (index: Index)
        ensures
            index.wf(),
            index.slots() == Seq::<Slot>::empty(),
            index@ == Map::<Seq<char>, Location>::empty(),
    {
        let index = Index { entries: Vec::new() };
        proof {
            assert(index.slots() =~= Seq::<Slot>::empty());
            assert(map_of(index.slots()) =~= Map::<Seq<char>, Location>::empty());
        }
        index
    }

    /// The number of entries.
    pub fn len(&self) -> (n: usize)
        ensures
            n == self.slots().len(),
    {
        self.entries.len()
    }

    /// The entry at position `i` of the order.
    pub fn entry(&self, i: usize) -> (e: &IndexEntry)
        requires
            i < self.slots().len(),
        ensures
            e@ == self.slots()[i as int],
    {
        &self.entries[i]
    }

    /// Bisects for `key`: `Ok` with the position of its entry, or `Err` with
    /// the position at which an entry for it would stand.
    #[verifier::rlimit(40)]
    pub fn find(&self, key: &str) -> (r: Result<usize, usize>)
        requires
            self.wf(),
        ensures
            match r {
                Ok(i) => i < self.slots().len() && self.slots()[i as int].key == key@,
                Err(i) => {
                    &&& i <= self.slots().len()
                    &&& !has_key(self.slots(), key@)
                    &&& forall|j: int| 0 <= j < i ==> key_before(#[trigger] self.slots()[j].key, key@)
                    &&& forall|j: int|
                        i <= j < self.slots().len() ==> key_before(
                            key@,
                            #[trigger] self.slots()[j].key,
                        )
                },
            },
    {
        let mut lo: usize = 0;
        let mut hi: usize = self.entries.len();
        while lo < hi
            invariant
                self.wf(),
                lo <= hi <= self.slots().len(),
                self.slots().len() == self.entries@.len(),
                forall|j: int| 0 <= j < lo ==> key_before(#[trigger] self.slots()[j].key, key@),
                forall|j: int|
                    hi <= j < self.slots().len() ==> key_before(key@, #[trigger] self.slots()[j].key),
            decreases hi - lo,
        {
            let mid = lo + (hi - lo) / 2;
            let here = self.entries[mid].key.as_str().as_bytes();
            assert(here@ == encode_utf8(self.slots()[mid as int].key));
            match order_of(here, key.as_bytes()) {
                KeyOrder::Before => {
                    assert forall|j: int| 0 <= j < mid + 1 implies key_before(
                        #[trigger] self.slots()[j].key,
                        key@,
                    ) by {
                        if j < mid {
                            assert(key_before(self.slots()[j].key, self.slots()[mid as int].key));
                            lemma_bytes_before_transitive(
                                encode_utf8(self.slots()[j].key),
                                here@,
                                encode_utf8(key@),
                            );
                        }
                    }
                    lo = mid + 1;
                },
                KeyOrder::After => {
                    assert forall|j: int| mid <= j < self.slots().len() implies key_before(
                        key@,
                        #[trigger] self.slots()[j].key,
                    ) by {
                        if j > mid {
                            assert(key_before(self.slots()[mid as int].key, self.slots()[j].key));
                            lemma_bytes_before_transitive(
                                encode_utf8(key@),
                                here@,
                                encode_utf8(self.slots()[j].key),
                            );
                        }
                    }
                    hi = mid;
                },
                KeyOrder::Same => {
                    proof {
                        lemma_key_bytes_injective(self.slots()[mid as int].key, key@);
                    }
                    return Ok(mid);
                },
            }
        }
        proof {
            lemma_bytes_before_irreflexive(encode_utf8(key@));
            assert forall|j: int| 0 <= j < self.slots().len() implies self.slots()[j].key
                != key@ by {
                if j < lo {
                    assert(key_before(self.slots()[j].key, key@));
                } else {
                    assert(key_before(key@, self.slots()[j].key));
                }
            }
        }
        Err(lo)
    }

    /// The place of the record that holds the value of `key`, if the index
    /// has one.
    pub fn get(&self, key: &str) -> (r: Option<RecordArgs>)
        requires
            self.wf(),
        ensures
            match r {
                Some(args) => self@.dom().contains(key@) && self@[key@] == args@,
                None => !self@.dom().contains(key@),
            },
    {
        match self.find(key) {
            Ok(i) => {
                proof {
                    lemma_map_of_at(self.slots(), i as int);
                }
                Some(self.entries[i].args)
            },
            Err(_) => None,
        }
    }

    /// Makes `args` the place of `key`, and returns the place it had.
    #[verifier::rlimit(40)]
    pub fn insert(&mut self, key: String, args: RecordArgs) -> (before: Option<RecordArgs>)
        requires
            old(self).wf(),
        ensures
            final(self).wf(),
            final(self)@ == old(self)@.insert(key@, args@),
            match before {
                Some(b) => old(self)@.dom().contains(key@) && old(self)@[key@] == b@
                    && final(self).live() == old(self).live() - b@.len + args@.len,
                None => !old(self)@.dom().contains(key@) && final(self).live() == old(self).live()
                    + args@.len,
            },
            forall|i: int|
                0 <= i < final(self).slots().len() ==> #[trigger] final(self).slots()[i] == (Slot {
                    key: key@,
                    loc: args@,
                }) || old(self).slots().contains(final(self).slots()[i]),
    {
        let ghost slot = Slot { key: key@, loc: args@ };
        match self.find(key.as_str()) {
            Ok(i) => {
                let before = self.entries[i].args;
                proof {
                    lemma_map_of_at(self.slots(), i as int);
                    lemma_update_slot(self.slots(), i as int, args@);
                }
                self.entries.set(i, IndexEntry { key, args });
                proof {
                    assert(self.slots() =~= old(self).slots().update(i as int, slot));
                    assert forall|j: int| 0 <= j < self.slots().len() implies #[trigger] self.slots()[j]
                        == slot || old(self).slots().contains(self.slots()[j]) by {
                        if j != i {
                            assert(old(self).slots()[j] == self.slots()[j]);
                        }
                    }
                }
                Some(before)
            },
            Err(i) => {
                proof {
                    lemma_insert_slot(self.slots(), i as int, slot);
                }
                self.entries.insert(i, IndexEntry { key, args });
                proof {
                    assert(self.slots() =~= old(self).slots().insert(i as int, slot));
                    assert forall|j: int| 0 <= j < self.slots().len() implies #[trigger] self.slots()[j]
                        == slot || old(self).slots().contains(self.slots()[j]) by {
                        if j < i {
                            assert(old(self).slots()[j] == self.slots()[j]);
                        } else if j > i {
                            assert(old(self).slots()[j - 1] == self.slots()[j]);
                        }
                    }
                }
                None
            },
        }
    }

    /// Takes the entry of `key` out, and returns the place it had.
    #[verifier::rlimit(40)]
    pub fn remove(&mut self, key: &str) -> (before: Option<RecordArgs>)
        requires
            old(self).wf(),
        ensures
            final(self).wf(),
            final(self)@ == old(self)@.remove(key@),
            match before {
                Some(b) => old(self)@.dom().contains(key@) && old(self)@[key@] == b@
                    && final(self).live() == old(self).live() - b@.len,
                None => !old(self)@.dom().contains(key@) && final(self).slots() == old(
                    self,
                ).slots(),
            },
            forall|i: int|
                0 <= i < final(self).slots().len() ==> old(self).slots().contains(
                    #[trigger] final(self).slots()[i],
                ),
    {
        match self.find(key) {
            Ok(i) => {
                proof {
                    lemma_map_of_at(self.slots(), i as int);
                    lemma_remove_slot(self.slots(), i as int);
                }
                let gone = self.entries.remove(i);
                proof {
                    assert(self.slots() =~= old(self).slots().remove(i as int));
                    assert forall|j: int| 0 <= j < self.slots().len() implies old(
                        self,
                    ).slots().contains(#[trigger] self.slots()[j]) by {
                        if j < i {
                            assert(old(self).slots()[j] == self.slots()[j]);
                        } else {
                            assert(old(self).slots()[j + 1] == self.slots()[j]);
                        }
                    }
                }
                Some(gone.args)
            },
            Err(_) => {
                proof {
                    assert(self@ =~= old(self)@.remove(key@));
                    assert forall|j: int| 0 <= j < self.slots().len() implies old(
                        self,
                    ).slots().contains(#[trigger] self.slots()[j]) by {
                        assert(old(self).slots()[j] == self.slots()[j]);
                    }
                }
                None
            },
        }
    }

    /// Adds an entry for a key that comes after every key of the index.
    pub fn push_last(&mut self, key: String, args: RecordArgs)
        requires
            old(self).wf(),
            forall|j: int|
                0 <= j < old(self).slots().len() ==> key_before(
                    #[trigger] old(self).slots()[j].key,
                    key@,
                ),
        ensures
            final(self).wf(),
            final(self).slots() == old(self).slots().push(Slot { key: key@, loc: args@ }),
    {
        self.entries.push(IndexEntry { key, args });
        proof {
            assert(self.slots() =~= old(self).slots().push(Slot { key: key@, loc: args@ }));
        }
    }
}

impl View for Index {
    type V = Map<Seq<char>, Location>;

    open spec fn view(&self) -> Map<Seq<char>, Location> {
        map_of(self.slots())
    }
}

} // verus!
