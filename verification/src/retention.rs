//! Which prepared packets stay cached: a byte budget with two segments, one for
//! packets seen once and one for packets that were asked for again.
use crate::packets::{CompressionProfile, SerializationKey};
use std::collections::VecDeque;
use vstd::prelude::*;

verus! {

/// What a retained packet is known by: serialized for a protocol version, or
/// prepared for a protocol version and a compression profile.
#[derive(Clone, Copy, Debug, PartialEq, Eq, Structural, Hash)]
pub enum RetainedKey {
    Serialized(SerializationKey),
    Prepared(SerializationKey, Option<CompressionProfile>),
}

impl RetainedKey {
    /// The snapshot and protocol version behind the key.
    pub open spec fn serialization_of(self) -> SerializationKey {
        match self {
            RetainedKey::Serialized(key) => key,
            RetainedKey::Prepared(key, _) => key,
        }
    }

    /// The snapshot and protocol version behind the key.
    pub fn serialization(self) -> (key: SerializationKey)
        ensures
            key == self.serialization_of(),
    {
        match self {
            RetainedKey::Serialized(key) => key,
            RetainedKey::Prepared(key, _) => key,
        }
    }

    /// Whether the key is that of a serialized packet.
    pub fn is_serialized(self) -> (r: bool)
        ensures
            r == (self is Serialized),
    {
        match self {
            RetainedKey::Serialized(_) => true,
            RetainedKey::Prepared(_, _) => false,
        }
    }

    /// The key belongs to one revision of a chunk.
    pub open spec fn is_of(self, instance_id: u64, revision: u64) -> bool {
        &&& self.serialization_of().instance_id == instance_id
        &&& self.serialization_of().revision == revision
    }
}

/// Where a retained packet stands.
#[derive(Clone, Copy, Debug, PartialEq, Eq, Structural)]
pub enum Segment {
    Probationary,
    Protected,
}

/// The size and the segment of a retained packet.
#[derive(Clone, Copy, Debug, PartialEq, Eq, Structural)]
pub struct RetainedValue {
    pub bytes: usize,
    pub segment: Segment,
}

/// The bytes of all retained packets.
pub open spec fn total_bytes(values: Map<RetainedKey, RetainedValue>) -> int
    decreases values.dom().len(),
    when values.dom().finite()
{
    if values.dom().len() == 0 {
        0
    } else {
        let key = values.dom().choose();
        values[key].bytes + total_bytes(values.remove(key))
    }
}

/// The bytes of the retained serialized packets.
pub open spec fn total_serialized(values: Map<RetainedKey, RetainedValue>) -> int
    decreases values.dom().len(),
    when values.dom().finite()
{
    if values.dom().len() == 0 {
        0
    } else {
        let key = values.dom().choose();
        (if key is Serialized {
            values[key].bytes as int
        } else {
            0
        }) + total_serialized(values.remove(key))
    }
}

/// Taking out a packet takes its bytes off the totals.
pub proof fn lemma_totals_without(values: Map<RetainedKey, RetainedValue>, key: RetainedKey)
    requires
        values.dom().finite(),
        values.contains_key(key),
    ensures
        total_bytes(values) == values[key].bytes + total_bytes(values.remove(key)),
        total_serialized(values) == (if key is Serialized {
            values[key].bytes as int
        } else {
            0
        }) + total_serialized(values.remove(key)),
    decreases values.dom().len(),
{
    let first = values.dom().choose();
    assert(values.dom().contains(key));
    assert(values.dom().len() > 0) by {
        if values.dom().len() == 0 {
            assert(values.dom() =~= Set::empty());
        }
    }
    if first != key {
        let rest = values.remove(first);
        assert(rest.dom() =~= values.dom().remove(first));
        lemma_totals_without(rest, key);
        let other = values.remove(key);
        assert(other.dom() =~= values.dom().remove(key));
        lemma_totals_without(other, first);
        assert(rest.remove(key) =~= other.remove(first));
    }
}

/// Putting in a packet under a new key adds its bytes to the totals.
pub proof fn lemma_totals_with(
    values: Map<RetainedKey, RetainedValue>,
    key: RetainedKey,
    value: RetainedValue,
)
    requires
        values.dom().finite(),
        !values.contains_key(key),
    ensures
        total_bytes(values.insert(key, value)) == total_bytes(values) + value.bytes,
        total_serialized(values.insert(key, value)) == total_serialized(values) + (if key is Serialized {
            value.bytes as int
        } else {
            0
        }),
{
    let after = values.insert(key, value);
    assert(after.dom() =~= values.dom().insert(key));
    lemma_totals_without(after, key);
    assert(after.remove(key) =~= values);
}

/// Totals are not negative, and the serialized part is no more than the whole.
pub proof fn lemma_totals_ordered(values: Map<RetainedKey, RetainedValue>)
    requires
        values.dom().finite(),
    ensures
        0 <= total_serialized(values) <= total_bytes(values),
    decreases values.dom().len(),
{
    if values.dom().len() > 0 {
        let first = values.dom().choose();
        assert(values.remove(first).dom() =~= values.dom().remove(first));
        lemma_totals_ordered(values.remove(first));
    }
}

/// Nothing retained takes no bytes.
pub proof fn lemma_totals_empty(values: Map<RetainedKey, RetainedValue>)
    requires
        values.dom().finite(),
        total_bytes(values) > 0,
    ensures
        exists|key: RetainedKey| #[trigger] values.contains_key(key),
{
    if values.dom().len() > 0 {
        let key = values.dom().choose();
        assert(values.dom().contains(key)) by {
            if values.dom() =~= Set::empty() {
                assert(values.dom().len() == 0);
            }
        }
        assert(values.contains_key(key));
    }
}

/// The retained packets by key. Every key occurs once.
pub struct RetainedValues {
    entries: Vec<(RetainedKey, RetainedValue)>,
}

/// The entry for a key stands at this place.
spec fn entry_at(entries: Seq<(RetainedKey, RetainedValue)>, key: RetainedKey, i: int) -> bool {
    0 <= i < entries.len() && entries[i].0 == key
}

impl View for RetainedValues {
    type V = Map<RetainedKey, RetainedValue>;

    closed spec fn view(&self) -> Map<RetainedKey, RetainedValue> {
        entries_map(self.entries@)
    }
}

/// The map that a list of entries stands for.
spec fn entries_map(entries: Seq<(RetainedKey, RetainedValue)>) -> Map<
    RetainedKey,
    RetainedValue,
>
    decreases entries.len(),
{
    if entries.len() == 0 {
        Map::empty()
    } else {
        entries_map(entries.drop_last()).insert(entries.last().0, entries.last().1)
    }
}

/// No key occurs twice.
spec fn distinct_entries(entries: Seq<(RetainedKey, RetainedValue)>) -> bool {
    forall|i: int, j: int|
        0 <= i < j < entries.len() ==> (#[trigger] entries[i]).0 != (#[trigger] entries[j]).0
}

/// Among distinct keys the map holds exactly the entries.
proof fn lemma_entries_map(entries: Seq<(RetainedKey, RetainedValue)>)
    requires
        distinct_entries(entries),
    ensures
        entries_map(entries).dom().finite(),
        entries_map(entries).dom().len() == entries.len(),
        forall|i: int|
            0 <= i < entries.len() ==> entries_map(entries).contains_key(
                (#[trigger] entries[i]).0,
            ) && entries_map(entries)[entries[i].0] == entries[i].1,
        forall|key: RetainedKey| #[trigger]
            entries_map(entries).contains_key(key) ==> exists|i: int|
                #[trigger] entry_at(entries, key, i),
    decreases entries.len(),
{
    if entries.len() > 0 {
        let init = entries.drop_last();
        let rest = entries_map(init);
        let all = entries_map(entries);
        lemma_entries_map(init);
        assert(all.dom() =~= rest.dom().insert(entries.last().0));
        assert(!rest.contains_key(entries.last().0)) by {
            if rest.contains_key(entries.last().0) {
                let i = choose|i: int| #[trigger] entry_at(init, entries.last().0, i);
                assert(entries[i].0 == entries[entries.len() - 1].0);
            }
        }
        assert forall|i: int| 0 <= i < entries.len() implies all.contains_key(
            (#[trigger] entries[i]).0,
        ) && all[entries[i].0] == entries[i].1 by {
            if i < init.len() {
                assert(init[i] == entries[i]);
                assert(entries[i].0 != entries[entries.len() - 1].0);
            }
        }
        assert forall|key: RetainedKey| #[trigger] all.contains_key(key) implies exists|i: int|
            #[trigger] entry_at(entries, key, i) by {
            if key == entries.last().0 {
                assert(entry_at(entries, key, entries.len() - 1));
            } else {
                let i = choose|i: int| #[trigger] entry_at(init, key, i);
                assert(entry_at(entries, key, i));
            }
        }
    }
}

impl RetainedValues {
    /// No key occurs twice.
    pub closed spec fn wf(&self) -> bool {
        distinct_entries(self.entries@)
    }

    /// Nothing retained.
    pub fn new() -> (values: RetainedValues)
        ensures
            values.wf(),
            values@ == Map::<RetainedKey, RetainedValue>::empty(),
            values@.dom().finite(),
    {
        RetainedValues { entries: Vec::new() }
    }

    /// The place of a key, or the number of entries.
    fn position(&self, key: &RetainedKey) -> (p: usize)
        requires
            self.wf(),
        ensures
            p <= self.entries@.len(),
            p < self.entries@.len() <==> self@.contains_key(*key),
            p < self.entries@.len() ==> self.entries@[p as int] == (*key, self@[*key]),
    {
        proof {
            lemma_entries_map(self.entries@);
        }
        let mut p: usize = 0;
        while p < self.entries.len()
            invariant
                p <= self.entries@.len(),
                forall|i: int| 0 <= i < p ==> (#[trigger] self.entries@[i]).0 != *key,
                self@ == entries_map(self.entries@),
                forall|i: int|
                    0 <= i < self.entries@.len() ==> self@.contains_key(
                        (#[trigger] self.entries@[i]).0,
                    ) && self@[self.entries@[i].0] == self.entries@[i].1,
            decreases self.entries.len() - p,
        {
            if self.entries[p].0 == *key {
                return p;
            }
            p = p + 1;
        }
        proof {
            if self@.contains_key(*key) {
                let i = choose|i: int| #[trigger] entry_at(self.entries@, *key, i);
                assert(self.entries@[i].0 == *key);
            }
        }
        p
    }

    /// The value of a key.
    pub fn get(&self, key: &RetainedKey) -> (value: Option<RetainedValue>)
        requires
            self.wf(),
        ensures
            value == (if self@.contains_key(*key) {
                Some(self@[*key])
            } else {
                None
            }),
    {
        let p: usize = self.position(key);
        if p < self.entries.len() {
            Some(self.entries[p].1)
        } else {
            None
        }
    }

    /// Whether the key is retained.
    pub fn contains_key(&self, key: &RetainedKey) -> (r: bool)
        requires
            self.wf(),
        ensures
            r == self@.contains_key(*key),
    {
        self.position(key) < self.entries.len()
    }

    /// The number of retained packets.
    pub fn len(&self) -> (n: usize)
        requires
            self.wf(),
        ensures
            n == self@.dom().len(),
            self@.dom().finite(),
    {
        proof {
            lemma_entries_map(self.entries@);
        }
        self.entries.len()
    }

    /// Whether nothing is retained.
    pub fn is_empty(&self) -> (r: bool)
        requires
            self.wf(),
        ensures
            r == (self@ == Map::<RetainedKey, RetainedValue>::empty()),
    {
        proof {
            lemma_entries_map(self.entries@);
            if self.entries@.len() > 0 {
                assert(self@.contains_key(self.entries@[0].0));
            }
        }
        self.entries.len() == 0
    }

    /// The keys, each once, in no particular order.
    pub fn keys(&self) -> (keys: Vec<RetainedKey>)
        requires
            self.wf(),
        ensures
            keys@.no_duplicates(),
            forall|key: RetainedKey| #[trigger] keys@.contains(key) <==> self@.contains_key(key),
    {
        let mut keys: Vec<RetainedKey> = Vec::new();
        for i in 0..self.entries.len()
            invariant
                keys@.len() == i,
                forall|j: int| 0 <= j < i ==> #[trigger] keys@[j] == self.entries@[j].0,
        {
            keys.push(self.entries[i].0);
        }
        proof {
            lemma_entries_map(self.entries@);
            assert forall|key: RetainedKey| #[trigger] keys@.contains(key)
                <==> self@.contains_key(key) by {
                if keys@.contains(key) {
                    let i = keys@.index_of(key);
                    assert(self.entries@[i].0 == key);
                }
                if self@.contains_key(key) {
                    let i = choose|i: int| #[trigger] entry_at(self.entries@, key, i);
                    assert(keys@[i] == key);
                }
            }
            assert forall|i: int, j: int| 0 <= i < j < keys@.len() implies keys@[i] != keys@[j] by {
                assert(self.entries@[i].0 != self.entries@[j].0);
            }
        }
        keys
    }

    /// Put a value under a key, in the place of an earlier one.
    pub fn insert(&mut self, key: RetainedKey, value: RetainedValue)
        requires
            old(self).wf(),
        ensures
            final(self).wf(),
            final(self)@ == old(self)@.insert(key, value),
    {
        let p: usize = self.position(&key);
        let ghost before = self.entries@;
        if p < self.entries.len() {
            self.entries.set(p, (key, value));
        } else {
            self.entries.push((key, value));
        }
        proof {
            let after = self.entries@;
            lemma_entries_map(before);
            assert(distinct_entries(after)) by {
                assert forall|i: int, j: int| 0 <= i < j < after.len() implies (
                #[trigger] after[i]).0 != (#[trigger] after[j]).0 by {
                    if p < before.len() {
                        assert(before[i].0 != before[j].0);
                    } else if j == before.len() {
                        assert(entries_map(before).contains_key(before[i].0));
                    } else {
                        assert(before[i].0 != before[j].0);
                    }
                }
            }
            lemma_entries_map(after);
            let (m, n) = (entries_map(before).insert(key, value), entries_map(after));
            assert forall|k: RetainedKey| #[trigger] m.contains_key(k) <==> n.contains_key(k) by {
                if m.contains_key(k) && k != key {
                    let i = choose|i: int| #[trigger] entry_at(before, k, i);
                    assert(after[i] == before[i]);
                }
                if k == key {
                    assert(after[p as int].0 == key);
                }
                if n.contains_key(k) && k != key {
                    let i = choose|i: int| #[trigger] entry_at(after, k, i);
                    assert(after[i] == before[i]);
                }
            }
            assert forall|k: RetainedKey| #[trigger] m.contains_key(k) implies m[k] == n[k] by {
                assert(n.contains_key(k));
                let i = choose|i: int| #[trigger] entry_at(after, k, i);
                if k != key {
                    assert(after[i] == before[i]);
                } else {
                    assert(after[p as int].0 == key);
                    assert(i == p);
                }
            }
            assert(m =~= n);
        }
    }

    /// Take a key and its value out.
    pub fn remove(&mut self, key: &RetainedKey) -> (value: Option<RetainedValue>)
        requires
            old(self).wf(),
        ensures
            final(self).wf(),
            final(self)@ == old(self)@.remove(*key),
            value == (if old(self)@.contains_key(*key) {
                Some(old(self)@[*key])
            } else {
                None
            }),
    {
        let p: usize = self.position(key);
        let ghost before = self.entries@;
        if p >= self.entries.len() {
            assert(self@ =~= old(self)@.remove(*key));
            return None;
        }
        let taken = self.entries.remove(p);
        proof {
            let after = self.entries@;
            let gone = p as int;
            assert(after =~= before.remove(gone));
            lemma_entries_map(before);
            assert(distinct_entries(after)) by {
                assert forall|i: int, j: int| 0 <= i < j < after.len() implies (
                #[trigger] after[i]).0 != (#[trigger] after[j]).0 by {
                    let (a, b) = (if i < gone { i } else { i + 1 }, if j < gone { j } else { j + 1 });
                    assert(before[a].0 != before[b].0);
                }
            }
            lemma_entries_map(after);
            let (m, n) = (entries_map(before).remove(*key), entries_map(after));
            assert forall|k: RetainedKey| #[trigger] m.contains_key(k) implies n.contains_key(k)
                && n[k] == m[k] by {
                let i = choose|i: int| #[trigger] entry_at(before, k, i);
                assert(i != gone);
                let j = if i < gone { i } else { i - 1 };
                assert(after[j] == before[i]);
            }
            assert forall|k: RetainedKey| #[trigger] n.contains_key(k) implies m.contains_key(k) by {
                let j = choose|j: int| #[trigger] entry_at(after, k, j);
                let i = if j < gone { j } else { j + 1 };
                assert(after[j] == before[i]);
                assert(before[i].0 != before[gone].0);
            }
            assert(m =~= n);
        }
        Some(taken.1)
    }
}

/// Tells every other key from `key`.
pub open spec fn other_key(key: RetainedKey) -> spec_fn(RetainedKey) -> bool {
    |k: RetainedKey| k != key
}

/// Tells the keys that do not belong to a revision of a chunk.
pub open spec fn other_revision(instance_id: u64, revision: u64) -> spec_fn(RetainedKey) -> bool {
    |k: RetainedKey| !k.is_of(instance_id, revision)
}

/// The key at place `i` is the first of its kind in the queue.
pub open spec fn first_of_kind(queue: Seq<RetainedKey>, serialized: bool, i: int) -> bool {
    &&& 0 <= i < queue.len()
    &&& (queue[i] is Serialized) == serialized
    &&& forall|j: int| 0 <= j < i ==> ((#[trigger] queue[j]) is Serialized) != serialized
}

/// A key of the kind is queued.
pub open spec fn has_kind(queue: Seq<RetainedKey>, serialized: bool) -> bool {
    exists|i: int| #[trigger] first_of_kind(queue, serialized, i)
}

/// The place of the first key of the kind.
pub open spec fn oldest(queue: Seq<RetainedKey>, serialized: bool) -> int {
    choose|i: int| #[trigger] first_of_kind(queue, serialized, i)
}

/// The queue after the key at place `i` was taken: the keys passed over on the way
/// stand at the back.
pub open spec fn taken_at(queue: Seq<RetainedKey>, i: int) -> Seq<RetainedKey> {
    queue.skip(i + 1) + queue.take(i)
}

/// A queue without a key of the kind has only keys of the other kind.
proof fn lemma_no_kind(queue: Seq<RetainedKey>, serialized: bool, n: nat)
    requires
        !has_kind(queue, serialized),
        n <= queue.len(),
    ensures
        forall|i: int| 0 <= i < n ==> ((#[trigger] queue[i]) is Serialized) != serialized,
    decreases n,
{
    if n > 0 {
        lemma_no_kind(queue, serialized, (n - 1) as nat);
        if (queue[n - 1] is Serialized) == serialized {
            assert(first_of_kind(queue, serialized, n - 1));
        }
    }
}

/// What the retention holds.
pub struct RetentionModel {
    pub capacity: int,
    pub target: int,
    pub values: Map<RetainedKey, RetainedValue>,
    pub probationary: Seq<RetainedKey>,
    pub protected: Seq<RetainedKey>,
}

impl RetentionModel {
    /// Every queued key is retained in the segment of the queue, and queued once.
    pub open spec fn queue_sound(self, queue: Seq<RetainedKey>, segment: Segment) -> bool {
        &&& queue.no_duplicates()
        &&& forall|i: int|
            0 <= i < queue.len() ==> self.values.contains_key(#[trigger] queue[i])
                && self.values[queue[i]].segment == segment
    }

    /// The queues hold retained keys only, each once.
    pub open spec fn sound(self) -> bool {
        &&& self.values.dom().finite()
        &&& self.queue_sound(self.probationary, Segment::Probationary)
        &&& self.queue_sound(self.protected, Segment::Protected)
    }

    /// The queue of a segment.
    pub open spec fn queue(self, segment: Segment) -> Seq<RetainedKey> {
        match segment {
            Segment::Probationary => self.probationary,
            Segment::Protected => self.protected,
        }
    }

    /// Every retained key but possibly one is queued.
    pub open spec fn queued_except(self, except: Option<RetainedKey>) -> bool {
        forall|key: RetainedKey| #[trigger]
            self.values.contains_key(key) && except != Some(key) ==> self.queue(
                self.values[key].segment,
            ).contains(key)
    }

    /// The retention at rest: the queues hold exactly the retained keys, and the
    /// bytes fit the capacity.
    pub open spec fn settled(self) -> bool {
        &&& self.sound()
        &&& self.queued_except(None)
        &&& total_bytes(self.values) <= self.capacity
    }

    /// The retention without a key.
    pub open spec fn without(self, key: RetainedKey) -> RetentionModel {
        if self.values.contains_key(key) {
            RetentionModel {
                values: self.values.remove(key),
                probationary: self.probationary.filter(other_key(key)),
                protected: self.protected.filter(other_key(key)),
                ..self
            }
        } else {
            self
        }
    }

    /// The retention without the keys of one revision of a chunk.
    pub open spec fn without_revision(self, instance_id: u64, revision: u64) -> RetentionModel {
        RetentionModel {
            values: Map::new(
                |k: RetainedKey| self.values.contains_key(k) && !k.is_of(instance_id, revision),
                |k: RetainedKey| self.values[k],
            ),
            probationary: self.probationary.filter(other_revision(instance_id, revision)),
            protected: self.protected.filter(other_revision(instance_id, revision)),
            ..self
        }
    }

    /// The retention after a key was asked for again: a key on probation moves to
    /// the end of the protected queue.
    pub open spec fn hit(self, key: RetainedKey) -> RetentionModel {
        if self.values.contains_key(key) && self.values[key].segment == Segment::Probationary {
            RetentionModel {
                values: self.values.insert(
                    key,
                    RetainedValue { segment: Segment::Protected, ..self.values[key] },
                ),
                probationary: self.probationary.filter(other_key(key)),
                protected: self.protected.push(key),
                ..self
            }
        } else {
            self
        }
    }

    /// The oldest key of a kind: on probation before protected.
    pub open spec fn oldest_key(self, serialized: bool) -> Option<RetainedKey> {
        if has_kind(self.probationary, serialized) {
            Some(self.probationary[oldest(self.probationary, serialized)])
        } else if has_kind(self.protected, serialized) {
            Some(self.protected[oldest(self.protected, serialized)])
        } else {
            None
        }
    }

    /// The retention after the oldest key of a kind was taken off its queue.
    pub open spec fn popped(self, serialized: bool) -> RetentionModel {
        if has_kind(self.probationary, serialized) {
            RetentionModel {
                probationary: taken_at(self.probationary, oldest(self.probationary, serialized)),
                ..self
            }
        } else if has_kind(self.protected, serialized) {
            RetentionModel {
                protected: taken_at(self.protected, oldest(self.protected, serialized)),
                ..self
            }
        } else {
            self
        }
    }

    /// The kind that gives way: serialized packets when they exceed their target
    /// and there are any, or when nothing else is left.
    pub open spec fn victim_kind(self) -> bool {
        let preferred = total_serialized(self.values) > self.target;
        if self.oldest_key(preferred) is Some {
            preferred
        } else {
            !preferred
        }
    }

    /// The key that gives way.
    pub open spec fn victim(self) -> Option<RetainedKey> {
        self.oldest_key(self.victim_kind())
    }

    /// The retention after the victim gave way.
    pub open spec fn without_victim(self) -> RetentionModel {
        match self.victim() {
            Some(key) => self.popped(self.victim_kind()).without(key),
            None => self,
        }
    }

    /// The victims that give way until the bytes fit the capacity, in order.
    pub open spec fn victims(self) -> Seq<RetainedKey>
        decreases self.values.dom().len(),
        when self.sound()
    {
        if total_bytes(self.values) <= self.capacity {
            Seq::empty()
        } else {
            match self.victim() {
                Some(key) => {
                    proof {
                        self.lemma_without_victim();
                    }
                    seq![key] + self.without_victim().victims()
                },
                None => Seq::empty(),
            }
        }
    }

    /// The retention after all victims gave way.
    pub open spec fn fitted(self) -> RetentionModel
        decreases self.values.dom().len(),
        when self.sound()
    {
        if total_bytes(self.values) <= self.capacity {
            self
        } else {
            match self.victim() {
                Some(key) => {
                    proof {
                        self.lemma_without_victim();
                    }
                    self.without_victim().fitted()
                },
                None => self,
            }
        }
    }

    /// A packet of this size is never retained.
    pub open spec fn rejects(self, bytes: usize) -> bool {
        bytes > self.capacity / 8 || self.capacity == 0
    }

    /// The retention with one more key on probation, before any victim gives way.
    pub open spec fn with_newcomer(self, key: RetainedKey, bytes: usize) -> RetentionModel {
        RetentionModel {
            values: self.without(key).values.insert(
                key,
                RetainedValue { bytes, segment: Segment::Probationary },
            ),
            probationary: self.without(key).probationary.push(key),
            ..self.without(key)
        }
    }

    /// The retention after a packet was offered.
    pub open spec fn admitted(self, key: RetainedKey, bytes: usize) -> RetentionModel {
        if self.rejects(bytes) {
            self.without(key)
        } else {
            self.with_newcomer(key, bytes).fitted()
        }
    }

    /// The keys that have to go when a packet is offered: the packet itself when it
    /// is rejected, else the victims.
    pub open spec fn turned_out(self, key: RetainedKey, bytes: usize) -> Seq<RetainedKey> {
        if self.rejects(bytes) {
            seq![key]
        } else {
            self.with_newcomer(key, bytes).victims()
        }
    }
}

/// Filtering keeps a queue free of repetitions, and keeps what passes.
proof fn lemma_filtered(queue: Seq<RetainedKey>, keep: spec_fn(RetainedKey) -> bool)
    requires
        queue.no_duplicates(),
    ensures
        queue.filter(keep).no_duplicates(),
        forall|k: RetainedKey| #[trigger]
            queue.filter(keep).contains(k) <==> queue.contains(k) && keep(k),
    decreases queue.len(),
{
    reveal(Seq::filter);
    if queue.len() > 0 {
        let init = queue.drop_last();
        let rest = init.filter(keep);
        let all = queue.filter(keep);
        let last = queue.last();
        lemma_filtered(init, keep);
        assert(!init.contains(last)) by {
            if init.contains(last) {
                let i = init.index_of(last);
                assert(queue[i] == queue[queue.len() - 1]);
            }
        }
        assert forall|k: RetainedKey| #[trigger] all.contains(k) <==> queue.contains(k) && keep(
            k,
        ) by {
            if queue.contains(k) && keep(k) {
                let i = queue.index_of(k);
                if i < init.len() {
                    assert(init[i] == k);
                    assert(rest.contains(k));
                    assert(all[rest.index_of(k)] == k);
                } else {
                    assert(all[all.len() - 1] == k);
                }
            }
            if all.contains(k) {
                let i = all.index_of(k);
                if i < rest.len() {
                    assert(rest[i] == k);
                    assert(rest.contains(k));
                    assert(queue[init.index_of(k)] == k);
                } else {
                    assert(queue[queue.len() - 1] == k);
                }
            }
        }
        assert forall|i: int, j: int| 0 <= i < j < all.len() implies all[i] != all[j] by {
            assert(rest[i] == all[i]);
            assert(rest.contains(rest[i]));
            if j < rest.len() {
                assert(rest[j] == all[j]);
            }
        }
    }
}

/// Filters that agree on a queue keep the same keys.
proof fn lemma_filters_agree(
    queue: Seq<RetainedKey>,
    p: spec_fn(RetainedKey) -> bool,
    q: spec_fn(RetainedKey) -> bool,
)
    requires
        forall|i: int| 0 <= i < queue.len() ==> p(#[trigger] queue[i]) == q(queue[i]),
    ensures
        queue.filter(p) == queue.filter(q),
    decreases queue.len(),
{
    reveal(Seq::filter);
    if queue.len() > 0 {
        lemma_filters_agree(queue.drop_last(), p, q);
        assert(p(queue[queue.len() - 1]) == q(queue[queue.len() - 1]));
    }
}

/// Filtering twice keeps what passes both.
proof fn lemma_filter_twice(
    queue: Seq<RetainedKey>,
    p: spec_fn(RetainedKey) -> bool,
    q: spec_fn(RetainedKey) -> bool,
    both: spec_fn(RetainedKey) -> bool,
)
    requires
        forall|k: RetainedKey| #[trigger] both(k) == (p(k) && q(k)),
    ensures
        queue.filter(p).filter(q) == queue.filter(both),
    decreases queue.len(),
{
    reveal(Seq::filter);
    if queue.len() > 0 {
        let init = queue.drop_last();
        lemma_filter_twice(init, p, q, both);
        if p(queue.last()) {
            assert(queue.filter(p).drop_last() =~= init.filter(p));
        }
    }
}

/// Taking a key out of a queue leaves the other keys, each once.
proof fn lemma_taken_at(queue: Seq<RetainedKey>, i: int)
    requires
        queue.no_duplicates(),
        0 <= i < queue.len(),
    ensures
        taken_at(queue, i).no_duplicates(),
        forall|k: RetainedKey| #[trigger]
            taken_at(queue, i).contains(k) <==> queue.contains(k) && k != queue[i],
{
    let after = taken_at(queue, i);
    let tail = queue.len() - (i + 1);
    assert forall|k: RetainedKey| #[trigger] after.contains(k) <==> queue.contains(k) && k
        != queue[i] by {
        if after.contains(k) {
            let j = after.index_of(k);
            if j < tail {
                assert(queue[j + i + 1] == k);
            } else {
                assert(queue[j - tail] == k);
            }
        }
        if queue.contains(k) && k != queue[i] {
            let j = queue.index_of(k);
            if j > i {
                assert(after[j - i - 1] == k);
            } else {
                assert(after[tail + j] == k);
            }
        }
    }
    assert forall|a: int, b: int| 0 <= a < b < after.len() implies after[a] != after[b] by {
        let x = if a < tail { a + i + 1 } else { a - tail };
        let y = if b < tail { b + i + 1 } else { b - tail };
        assert(after[a] == queue[x] && after[b] == queue[y]);
    }
}

impl RetentionModel {
    /// Taking out a key keeps the queues sound.
    proof fn lemma_without(self, key: RetainedKey)
        requires
            self.sound(),
        ensures
            self.without(key).sound(),
            !self.without(key).values.contains_key(key),
            self.queued_except(Some(key)) ==> self.without(key).queued_except(None),
            self.queued_except(None) ==> self.without(key).queued_except(None),
            self.values.contains_key(key) ==> self.without(key).values.dom().len()
                == self.values.dom().len() - 1,
    {
        let after = self.without(key);
        if self.values.contains_key(key) {
            lemma_filtered(self.probationary, other_key(key));
            lemma_filtered(self.protected, other_key(key));
            assert(after.values.dom() =~= self.values.dom().remove(key));
            assert forall|i: int| 0 <= i < after.probationary.len() implies {
                &&& after.values.contains_key(#[trigger] after.probationary[i])
                &&& after.values[after.probationary[i]].segment == Segment::Probationary
            } by {
                let k = after.probationary[i];
                assert(after.probationary.contains(k));
                assert(self.probationary[self.probationary.index_of(k)] == k);
            }
            assert forall|i: int| 0 <= i < after.protected.len() implies {
                &&& after.values.contains_key(#[trigger] after.protected[i])
                &&& after.values[after.protected[i]].segment == Segment::Protected
            } by {
                let k = after.protected[i];
                assert(after.protected.contains(k));
                assert(self.protected[self.protected.index_of(k)] == k);
            }
        }
    }

    /// Popping the oldest key of a kind leaves every other key queued.
    proof fn lemma_popped(self, serialized: bool)
        requires
            self.sound(),
        ensures
            self.popped(serialized).sound(),
            self.popped(serialized).values == self.values,
            self.queued_except(None) ==> self.popped(serialized).queued_except(
                self.oldest_key(serialized),
            ),
            self.oldest_key(serialized) matches Some(key) ==> self.values.contains_key(key) && (
            key is Serialized) == serialized,
    {
        let after = self.popped(serialized);
        if has_kind(self.probationary, serialized) {
            let i = oldest(self.probationary, serialized);
            assert(first_of_kind(self.probationary, serialized, i));
            lemma_taken_at(self.probationary, i);
            assert(self.values.contains_key(self.probationary[i]));
            assert forall|j: int| 0 <= j < after.probationary.len() implies {
                &&& after.values.contains_key(#[trigger] after.probationary[j])
                &&& after.values[after.probationary[j]].segment == Segment::Probationary
            } by {
                let k = after.probationary[j];
                assert(after.probationary.contains(k));
                assert(self.probationary[self.probationary.index_of(k)] == k);
            }
        } else if has_kind(self.protected, serialized) {
            let i = oldest(self.protected, serialized);
            assert(first_of_kind(self.protected, serialized, i));
            lemma_taken_at(self.protected, i);
            assert(self.values.contains_key(self.protected[i]));
            assert forall|j: int| 0 <= j < after.protected.len() implies {
                &&& after.values.contains_key(#[trigger] after.protected[j])
                &&& after.values[after.protected[j]].segment == Segment::Protected
            } by {
                let k = after.protected[j];
                assert(after.protected.contains(k));
                assert(self.protected[self.protected.index_of(k)] == k);
            }
        }
    }

    /// The victim is retained, and gone afterwards.
    pub proof fn lemma_without_victim(self)
        requires
            self.sound(),
        ensures
            self.without_victim().sound(),
            self.queued_except(None) ==> self.without_victim().queued_except(None),
            self.victim() matches Some(key) ==> {
                &&& self.values.contains_key(key)
                &&& self.without_victim().values == self.values.remove(key)
                &&& self.without_victim().values.dom().len() < self.values.dom().len()
            },
    {
        let kind = self.victim_kind();
        self.lemma_popped(kind);
        match self.victim() {
            Some(key) => {
                self.popped(kind).lemma_without(key);
            },
            None => {},
        }
    }

    /// Where something is retained and queued, there is a victim.
    proof fn lemma_victim_exists(self)
        requires
            self.sound(),
            self.queued_except(None),
            total_bytes(self.values) > 0,
        ensures
            self.victim() is Some,
    {
        lemma_totals_empty(self.values);
        let key = choose|key: RetainedKey| #[trigger] self.values.contains_key(key);
        let kind = key is Serialized;
        let queue = self.queue(self.values[key].segment);
        assert(queue.contains(key));
        if !has_kind(queue, kind) {
            lemma_no_kind(queue, kind, queue.len());
            assert(queue[queue.index_of(key)] == key);
        }
        assert(has_kind(queue, kind));
        assert(self.oldest_key(kind) is Some);
    }

    /// The victims give way until the bytes fit: the rest is at rest, and holds what
    /// was retained but for the victims.
    proof fn lemma_fitted(self)
        requires
            self.sound(),
            self.queued_except(None),
            0 <= self.capacity,
        ensures
            self.fitted().settled(),
            self.fitted().capacity == self.capacity,
            self.fitted().target == self.target,
            self.victims().no_duplicates(),
            forall|k: RetainedKey| #[trigger]
                self.victims().contains(k) ==> self.values.contains_key(k),
            forall|k: RetainedKey| #[trigger]
                self.fitted().values.contains_key(k) <==> self.values.contains_key(k)
                    && !self.victims().contains(k),
            forall|k: RetainedKey| #[trigger]
                self.fitted().values.contains_key(k) ==> self.fitted().values[k] == self.values[k],
        decreases self.values.dom().len(),
    {
        if total_bytes(self.values) > self.capacity {
            self.lemma_victim_exists();
            self.lemma_without_victim();
            let key = self.victim()->0;
            let next = self.without_victim();
            next.lemma_fitted();
            let rest = next.victims();
            let all = self.victims();
            assert(all == seq![key] + rest);
            assert forall|k: RetainedKey| #[trigger] all.contains(k) <==> k == key
                || rest.contains(k) by {
                if all.contains(k) {
                    let i = all.index_of(k);
                    if i > 0 {
                        assert(rest[i - 1] == k);
                    }
                }
                if rest.contains(k) {
                    assert(all[rest.index_of(k) + 1] == k);
                }
                if k == key {
                    assert(all[0] == k);
                }
            }
            assert forall|i: int, j: int| 0 <= i < j < all.len() implies all[i] != all[j] by {
                assert(all[j] == rest[j - 1]);
                assert(rest.contains(rest[j - 1]));
                if i > 0 {
                    assert(all[i] == rest[i - 1]);
                }
            }
        } else {
            assert(self.victims() =~= Seq::empty());
        }
    }

    /// A newcomer is queued like the rest.
    proof fn lemma_with_newcomer(self, key: RetainedKey, bytes: usize)
        requires
            self.sound(),
            self.queued_except(None),
        ensures
            self.with_newcomer(key, bytes).sound(),
            self.with_newcomer(key, bytes).queued_except(None),
    {
        let rest = self.without(key);
        let after = self.with_newcomer(key, bytes);
        self.lemma_without(key);
        assert(after.values.dom() =~= rest.values.dom().insert(key));
        assert(!rest.probationary.contains(key)) by {
            if rest.probationary.contains(key) {
                assert(rest.values.contains_key(
                    rest.probationary[rest.probationary.index_of(key)],
                ));
            }
        }
        assert forall|i: int| 0 <= i < after.probationary.len() implies {
            &&& after.values.contains_key(#[trigger] after.probationary[i])
            &&& after.values[after.probationary[i]].segment == Segment::Probationary
        } by {
            if i < rest.probationary.len() {
                assert(after.probationary[i] == rest.probationary[i]);
            }
        }
        assert forall|i: int, j: int|
            0 <= i < j < after.probationary.len() implies after.probationary[i]
            != after.probationary[j] by {
            assert(after.probationary[i] == rest.probationary[i]);
            assert(rest.probationary.contains(rest.probationary[i]));
        }
        assert forall|i: int| 0 <= i < after.protected.len() implies {
            &&& after.values.contains_key(#[trigger] after.protected[i])
            &&& after.values[after.protected[i]].segment == Segment::Protected
        } by {
            assert(rest.values.contains_key(rest.protected[i]));
        }
        assert forall|k: RetainedKey| #[trigger] after.values.contains_key(k) implies after.queue(
            after.values[k].segment,
        ).contains(k) by {
            if k == key {
                assert(after.probationary[rest.probationary.len() as int] == k);
            } else {
                assert(rest.values.contains_key(k));
                let queue = rest.queue(rest.values[k].segment);
                let i = queue.index_of(k);
                assert(after.queue(after.values[k].segment)[i] == k);
            }
        }
    }
}

/// A byte budget for cached packets: a packet starts on probation and is protected
/// once it was asked for again.
pub struct Retention {
    pub capacity: usize,
    pub target_serialized: usize,
    pub retained_bytes: u128,
    pub serialized_bytes: u128,
    pub values: RetainedValues,
    pub probationary: VecDeque<RetainedKey>,
    pub protected: VecDeque<RetainedKey>,
}

impl View for Retention {
    type V = RetentionModel;

    open spec fn view(&self) -> RetentionModel {
        RetentionModel {
            capacity: self.capacity as int,
            target: self.target_serialized as int,
            values: self.values@,
            probationary: self.probationary@,
            protected: self.protected@,
        }
    }
}

/// The queue without a key.
fn without_key(queue: &VecDeque<RetainedKey>, key: RetainedKey) -> (r: VecDeque<RetainedKey>)
    ensures
        r@ == queue@.filter(other_key(key)),
{
    let mut r: VecDeque<RetainedKey> = VecDeque::new();
    let mut i: usize = 0;
    proof {
        reveal(Seq::filter);
    }
    assert(r@ =~= queue@.take(0).filter(other_key(key)));
    while i < queue.len()
        invariant
            i <= queue@.len(),
            r@ == queue@.take(i as int).filter(other_key(key)),
        decreases queue@.len() - i,
    {
        let candidate = queue[i];
        proof {
            assert(queue@.take(i + 1).drop_last() =~= queue@.take(i as int));
            reveal(Seq::filter);
        }
        if candidate != key {
            r.push_back(candidate);
        }
        i = i + 1;
    }
    assert(queue@.take(queue@.len() as int) =~= queue@);
    r
}

/// Take the first key of a kind off the queue; keys passed over go to the back.
fn pop_kind(queue: &mut VecDeque<RetainedKey>, serialized: bool) -> (r: Option<RetainedKey>)
    ensures
        has_kind(old(queue)@, serialized) ==> r == Some(
            old(queue)@[oldest(old(queue)@, serialized)],
        ) && final(queue)@ == taken_at(old(queue)@, oldest(old(queue)@, serialized)),
        !has_kind(old(queue)@, serialized) ==> r is None && final(queue)@ == old(queue)@,
{
    let ghost before = queue@;
    let candidates: usize = queue.len();
    let mut i: usize = 0;
    assert(queue@ =~= before.skip(0) + before.take(0));
    while i < candidates
        invariant
            i <= candidates,
            before == old(queue)@,
            candidates == before.len(),
            queue@ == before.skip(i as int) + before.take(i as int),
            forall|j: int| 0 <= j < i ==> ((#[trigger] before[j]) is Serialized) != serialized,
        decreases candidates - i,
    {
        let key = match queue.pop_front() {
            Some(key) => key,
            None => {
                return None;
            },
        };
        assert(key == before[i as int]);
        if key.is_serialized() == serialized {
            proof {
                assert(first_of_kind(before, serialized, i as int));
                let o = oldest(before, serialized);
                assert(first_of_kind(before, serialized, o));
                assert(o == i) by {
                    if o < i {
                        assert((before[o] is Serialized) != serialized);
                    }
                    if i < o {
                        assert((before[i as int] is Serialized) != serialized);
                    }
                }
                assert(queue@ =~= taken_at(before, i as int));
            }
            return Some(key);
        }
        queue.push_back(key);
        i = i + 1;
        assert(queue@ =~= before.skip(i as int) + before.take(i as int));
    }
    proof {
        assert(queue@ =~= before);
        if has_kind(before, serialized) {
            let o = oldest(before, serialized);
            assert(first_of_kind(before, serialized, o));
            assert((before[o] is Serialized) != serialized);
        }
    }
    None
}

impl Retention {
    /// The queues are sound and the accounts are those of the retained packets.
    pub open spec fn wf(&self) -> bool {
        &&& self.values.wf()
        &&& self@.sound()
        &&& self.retained_bytes == total_bytes(self@.values)
        &&& self.serialized_bytes == total_serialized(self@.values)
    }

    /// Nothing retained; serialized packets are to take up at most the percentage.
    pub fn new(capacity: usize, serialized_percent: usize) -> (r: Retention)
        ensures
            r.wf(),
            r@.settled(),
            r@.capacity == capacity,
            r@.target == (if capacity * serialized_percent > usize::MAX {
                usize::MAX as int
            } else {
                capacity * serialized_percent
            }) / 100,
            r@.values == Map::<RetainedKey, RetainedValue>::empty(),
            r.capacity == capacity,
            capacity * serialized_percent <= usize::MAX ==> r.target_serialized == capacity
                * serialized_percent / 100,
            capacity * serialized_percent > usize::MAX ==> r.target_serialized == usize::MAX / 100,
            r.retained_bytes == 0,
            r.serialized_bytes == 0,
            r.probationary@.len() == 0,
            r.protected@.len() == 0,
    {
        let share: usize = match capacity.checked_mul(serialized_percent) {
            Some(share) => share,
            None => usize::MAX,
        };
        let r = Retention {
            capacity,
            target_serialized: share / 100,
            retained_bytes: 0,
            serialized_bytes: 0,
            values: RetainedValues::new(),
            probationary: VecDeque::new(),
            protected: VecDeque::new(),
        };
        proof {
            assert(r@.values.dom() =~= Set::empty());
        }
        r
    }

    /// Take a packet out of the accounts and the queues.
    pub fn remove(&mut self, key: RetainedKey)
        requires
            old(self).wf(),
        ensures
            final(self).wf(),
            final(self)@ == old(self)@.without(key),
            final(self).capacity == old(self).capacity,
            final(self).target_serialized == old(self).target_serialized,
            final(self).values@ == old(self).values@.remove(key),
            old(self).values@.contains_key(key) ==> final(self).retained_bytes
                == old(self).retained_bytes - old(self).values@[key].bytes,
            forall|p: int|
                0 <= p < old(self).probationary@.len() && #[trigger] old(self).probationary@[p]
                    == key ==> final(self).probationary@ == old(self).probationary@.remove(p),
            forall|p: int|
                0 <= p < old(self).protected@.len() && #[trigger] old(self).protected@[p] == key
                    ==> final(self).protected@ == old(self).protected@.remove(p),
            !old(self).probationary@.contains(key) ==> final(self).probationary@
                == old(self).probationary@,
            !old(self).protected@.contains(key) ==> final(self).protected@ == old(self).protected@,
            old(self).values@.contains_key(key) ==> !final(self).probationary@.contains(key)
                && !final(self).protected@.contains(key),
            !old(self).values@.contains_key(key) ==> final(self)@ == old(self)@,
    {
        let ghost before = self@;
        proof {
            before.lemma_without(key);
            lemma_filtered(before.probationary, other_key(key));
            lemma_filtered(before.protected, other_key(key));
            lemma_left_queue(before.probationary, key);
            lemma_left_queue(before.protected, key);
            if before.values.contains_key(key) {
                lemma_totals_without(before.values, key);
                lemma_totals_ordered(before.without(key).values);
            }
        }
        match self.values.remove(&key) {
            Some(value) => {
                self.retained_bytes = self.retained_bytes - value.bytes as u128;
                if key.is_serialized() {
                    self.serialized_bytes = self.serialized_bytes - value.bytes as u128;
                }
                self.probationary = without_key(&self.probationary, key);
                self.protected = without_key(&self.protected, key);
            },
            None => {
                assert(before.values.remove(key) =~= before.values);
            },
        }
    }

    /// Take all packets of one revision of a chunk out.
    pub fn remove_revision(&mut self, instance_id: u64, revision: u64)
        requires
            old(self).wf(),
        ensures
            final(self).wf(),
            final(self)@ == old(self)@.without_revision(instance_id, revision),
            final(self).capacity == old(self).capacity,
            final(self).target_serialized == old(self).target_serialized,
            forall|key: SerializationKey, compression: Option<CompressionProfile>|
                #![trigger final(self).values@.contains_key(
                    RetainedKey::Prepared(key, compression),
                )]
                final(self).values@.contains_key(
                    RetainedKey::Prepared(key, compression),
                ) <==> old(self).values@.contains_key(
                    RetainedKey::Prepared(key, compression),
                ) && !(key.instance_id == instance_id && key.revision == revision),
            forall|key: SerializationKey|
                #![trigger final(self).values@.contains_key(RetainedKey::Serialized(key))]
                final(self).values@.contains_key(RetainedKey::Serialized(key))
                    <==> old(self).values@.contains_key(RetainedKey::Serialized(key))
                    && !(key.instance_id
                    == instance_id && key.revision == revision),
            forall|k: RetainedKey| #[trigger]
                final(self).values@.contains_key(k)
                    ==> final(self).values@[k] == old(self).values@[k],
            forall|i: int, j: int|
                0 <= i < j < final(self).probationary@.len() ==> old(self).probationary@.index_of(
                    #[trigger] final(self).probationary@[i],
                ) < old(self).probationary@.index_of(#[trigger] final(self).probationary@[j]),
            forall|i: int, j: int|
                0 <= i < j < final(self).protected@.len() ==> old(self).protected@.index_of(
                    #[trigger] final(self).protected@[i],
                ) < old(self).protected@.index_of(#[trigger] final(self).protected@[j]),
            forall|k: RetainedKey| #[trigger]
                final(self).values@.contains_key(k) ==> (old(self).probationary@.contains(k)
                    <==> final(self).probationary@.contains(k)) && (old(self).protected@.contains(k)
                    <==> final(self).protected@.contains(k)),
    {
        let ghost before = self@;
        let keys = self.values.keys();
        let ghost mut gone: Set<RetainedKey> = Set::empty();
        proof {
            lemma_filters_agree(before.probationary, |k: RetainedKey| true, outside(gone));
            lemma_filters_agree(before.protected, |k: RetainedKey| true, outside(gone));
            lemma_filter_all(before.probationary);
            lemma_filter_all(before.protected);
        }
        let mut i: usize = 0;
        while i < keys.len()
            invariant
                i <= keys@.len(),
                self.wf(),
                before.sound(),
                self@.capacity == before.capacity,
                self@.target == before.target,
                forall|k: RetainedKey| #[trigger]
                    gone.contains(k) <==> k.is_of(instance_id, revision) && keys@.take(
                        i as int,
                    ).contains(k),
                forall|k: RetainedKey| #[trigger]
                    self@.values.contains_key(k) <==> before.values.contains_key(k)
                        && !gone.contains(k),
                forall|k: RetainedKey| #[trigger]
                    self@.values.contains_key(k) ==> self@.values[k] == before.values[k],
                self@.probationary == before.probationary.filter(outside(gone)),
                self@.protected == before.protected.filter(outside(gone)),
            decreases keys.len() - i,
        {
            let key = keys[i];
            let serialization = key.serialization();
            let ghost now = self@;
            let ghost was_gone = gone;
            if serialization.instance_id == instance_id && serialization.revision == revision {
                self.remove(key);
                proof {
                    gone = gone.insert(key);
                    lemma_filter_twice(
                        before.probationary,
                        outside(was_gone),
                        other_key(key),
                        outside(gone),
                    );
                    lemma_filter_twice(
                        before.protected,
                        outside(was_gone),
                        other_key(key),
                        outside(gone),
                    );
                    if !now.values.contains_key(key) {
                        lemma_absent_key(now, key);
                    }
                }
            }
            proof {
                let (taken, next) = (keys@.take(i as int), keys@.take(i + 1));
                assert forall|k: RetainedKey| #[trigger] gone.contains(k) <==> k.is_of(
                    instance_id,
                    revision,
                ) && next.contains(k) by {
                    assert(was_gone.contains(k) <==> k.is_of(instance_id, revision)
                        && taken.contains(k));
                    if taken.contains(k) {
                        assert(next[taken.index_of(k)] == k);
                    }
                    if next.contains(k) && k != key {
                        assert(taken[next.index_of(k)] == k);
                    }
                    if k == key {
                        assert(next[i as int] == k);
                    }
                }
            }
            i = i + 1;
        }
        proof {
            assert(keys@.take(keys@.len() as int) =~= keys@);
            let after = before.without_revision(instance_id, revision);
            assert forall|k: RetainedKey| #[trigger] self@.values.contains_key(k)
                <==> after.values.contains_key(k) by {
                assert(keys@.contains(k) <==> before.values.contains_key(k));
            }
            assert(self@.values =~= after.values);
            lemma_filtered(before.probationary, other_revision(instance_id, revision));
            lemma_filtered(before.protected, other_revision(instance_id, revision));
            lemma_filter_keeps_order(before.probationary, other_revision(instance_id, revision));
            lemma_filter_keeps_order(before.protected, other_revision(instance_id, revision));
            lemma_filters_agree(
                before.probationary,
                outside(gone),
                other_revision(instance_id, revision),
            );
            lemma_filters_agree(
                before.protected,
                outside(gone),
                other_revision(instance_id, revision),
            );
        }
    }

    /// A packet was asked for again: it is protected from now on.
    pub fn record_hit(&mut self, key: RetainedKey)
        requires
            old(self).wf(),
        ensures
            final(self).wf(),
            final(self)@ == old(self)@.hit(key),
            final(self).capacity == old(self).capacity,
            final(self).target_serialized == old(self).target_serialized,
            final(self).retained_bytes == old(self).retained_bytes,
            final(self).serialized_bytes == old(self).serialized_bytes,
            final(self).values@.dom() == old(self).values@.dom(),
            old(self).values@.contains_key(key) ==> final(self).values@[key].segment
                == Segment::Protected,
            old(self).values@.contains_key(key)
                ==> final(self).values@[key].bytes == old(self).values@[key].bytes,
            forall|k: RetainedKey|
                k != key && #[trigger] old(self).values@.contains_key(k)
                    ==> final(self).values@[k] == old(self).values@[k],
            old(self).values@.contains_key(key) && old(self).values@[key].segment
                == Segment::Probationary ==> final(self).protected@ == old(self).protected@.push(
                key,
            ) && !final(self).probationary@.contains(key),
            forall|p: int|
                0 <= p < old(self).probationary@.len() && #[trigger] old(self).probationary@[p]
                    == key ==> final(self).probationary@ == old(self).probationary@.remove(p),
            old(self).values@.contains_key(key) && old(self).values@[key].segment
                == Segment::Protected ==> final(self)@ == old(self)@,
            !old(self).values@.contains_key(key) ==> final(self)@ == old(self)@,
    {
        let ghost before = self@;
        let value = match self.values.get(&key) {
            Some(value) => value,
            None => {
                return;
            },
        };
        if value.segment == Segment::Protected {
            return;
        }
        proof {
            before.lemma_hit(key);
            lemma_filtered(before.probationary, other_key(key));
            lemma_left_queue(before.probationary, key);
        }
        self.values.insert(key, RetainedValue { bytes: value.bytes, segment: Segment::Protected });
        self.probationary = without_key(&self.probationary, key);
        self.protected.push_back(key);
    }

    /// Take the oldest key of a kind off its queue: on probation before protected.
    /// The packet itself stays retained until it is removed.
    pub fn pop_oldest(&mut self, serialized: bool) -> (r: Option<RetainedKey>)
        requires
            old(self).wf(),
        ensures
            final(self).wf(),
            r == old(self)@.oldest_key(serialized),
            final(self)@ == old(self)@.popped(serialized),
            final(self).values@ == old(self).values@,
            final(self).capacity == old(self).capacity,
            final(self).target_serialized == old(self).target_serialized,
            r is Some ==> (r->0 is Serialized) == serialized && old(self).values@.contains_key(
                r->0,
            ),
            r is Some ==> !final(self).probationary@.contains(r->0)
                && !final(self).protected@.contains(r->0),
            r is Some && old(self).values@[r->0].segment == Segment::Protected ==> forall|i: int|
                0 <= i < old(self).probationary@.len() ==> ((
                #[trigger] old(self).probationary@[i]) is Serialized) != serialized,
            r is Some ==> forall|i: int, j: int|
                0 <= i < j < old(self).probationary@.len() && (
                #[trigger] old(self).probationary@[i] is Serialized) == serialized ==> r->0 != (
                #[trigger] old(self).probationary@[j]),
            r is Some ==> forall|i: int, j: int|
                0 <= i < j < old(self).protected@.len() && (
                #[trigger] old(self).protected@[i] is Serialized) == serialized ==> r->0 != (
                #[trigger] old(self).protected@[j]),
            forall|i: int|
                0 <= i < old(self).probationary@.len() && r == Some(
                    #[trigger] old(self).probationary@[i],
                ) ==> final(self).probationary@ == old(self).probationary@.skip(i + 1)
                    + old(self).probationary@.take(i) && final(self).protected@
                    == old(self).protected@,
            forall|i: int|
                0 <= i < old(self).protected@.len() && r == Some(
                    #[trigger] old(self).protected@[i],
                ) ==> final(self).protected@ == old(self).protected@.skip(i + 1)
                    + old(self).protected@.take(i) && final(self).probationary@
                    == old(self).probationary@,
            r is None ==> final(self)@ == old(self)@,
            r is None ==> forall|i: int|
                0 <= i < old(self).probationary@.len() ==> ((
                #[trigger] old(self).probationary@[i]) is Serialized) != serialized,
            r is None ==> forall|i: int|
                0 <= i < old(self).protected@.len() ==> ((
                #[trigger] old(self).protected@[i]) is Serialized) != serialized,
    {
        proof {
            self@.lemma_popped(serialized);
            self@.lemma_popped_in_order(serialized);
        }
        match pop_kind(&mut self.probationary, serialized) {
            Some(key) => {
                return Some(key);
            },
            None => {},
        }
        pop_kind(&mut self.protected, serialized)
    }

    /// Let one packet give way: one of the kind that the target names where there is
    /// any, else one of the other kind.
    fn give_way(&mut self) -> (r: Option<RetainedKey>)
        requires
            old(self).wf(),
            old(self)@.queued_except(None),
        ensures
            final(self).wf(),
            final(self)@.queued_except(None),
            r == old(self)@.victim(),
            final(self)@ == old(self)@.without_victim(),
    {
        let ghost now = self@;
        proof {
            now.lemma_without_victim();
        }
        let prefer_serialized: bool = self.serialized_bytes > self.target_serialized as u128;
        let mut candidate = self.pop_oldest(prefer_serialized);
        if candidate.is_none() {
            candidate = self.pop_oldest(!prefer_serialized);
        }
        match candidate {
            Some(candidate) => {
                assert(now.victim() == Some(candidate));
                self.remove(candidate);
                Some(candidate)
            },
            None => None,
        }
    }

    /// Offer a packet. Returns the keys that have to go: the packet itself where it
    /// is larger than an eighth of the capacity, else what gives way to it.
    pub fn offer(&mut self, key: RetainedKey, bytes: usize) -> (evicted: Vec<RetainedKey>)
        requires
            old(self).wf(),
            old(self)@.settled(),
        ensures
            final(self).wf(),
            final(self)@ == old(self)@.admitted(key, bytes),
            evicted@ == old(self)@.turned_out(key, bytes),
            final(self)@.settled(),
            final(self).capacity == old(self).capacity,
            final(self).target_serialized == old(self).target_serialized,
            final(self).retained_bytes <= final(self).capacity,
            old(self).capacity == 0 || bytes > old(self).capacity / 8 ==> evicted@ == seq![key],
            old(self).capacity == 0 || bytes > old(self).capacity / 8 ==> final(self).values@
                == old(self).values@.remove(key),
            0 < old(self).capacity && 8 * bytes <= old(self).capacity && total_bytes(
                old(self).values@.remove(key),
            ) + bytes <= old(self).capacity ==> evicted@.len() == 0
                && final(self).values@
                == old(self).values@.insert(key, RetainedValue { bytes, segment: Segment::Probationary }),
            0 < old(self).capacity && 8 * bytes <= old(self).capacity && evicted@.len() == 0
                ==> final(self).probationary@.len() > 0 && final(self).probationary@.last() == key,
            0 < old(self).capacity && 8 * bytes <= old(self).capacity && evicted@.len() > 0
                ==> total_bytes(old(self).values@.remove(key)) + bytes > old(self).capacity,
            0 < old(self).capacity && 8 * bytes <= old(self).capacity && evicted@.len() > 0
                ==> final(self).retained_bytes + (if evicted@.last() == key {
                bytes
            } else {
                old(self).values@[evicted@.last()].bytes
            }) > old(self).capacity,
            forall|k: RetainedKey|
                k != key && #[trigger] old(self).values@.contains_key(k)
                    ==> (final(self).values@.contains_key(k) <==> !evicted@.contains(k)),
            forall|k: RetainedKey|
                k != key && #[trigger] final(self).values@.contains_key(k)
                    ==> old(self).values@.contains_key(k)
                    && final(self).values@[k] == old(self).values@[k],
            final(self).values@.contains_key(key) <==> !evicted@.contains(key),
            final(self).values@.contains_key(key) ==> final(self).values@[key] == (RetainedValue {
                bytes,
                segment: Segment::Probationary,
            }),
    {
        let ghost before = self@;
        proof {
            law_admission_keeps_settled(before, key, bytes);
            law_offer_in_numbers(before, key, bytes);
            assert forall|k: RetainedKey|
                k != key && #[trigger] before.values.contains_key(k) implies (before.admitted(
                key,
                bytes,
            ).values.contains_key(k) <==> !before.turned_out(key, bytes).contains(k)) by {
                law_turned_out_keys_are_gone(before, key, bytes, k);
            }
            assert forall|k: RetainedKey|
                k != key && #[trigger] before.admitted(key, bytes).values.contains_key(
                    k,
                ) implies before.values.contains_key(k) && before.admitted(key, bytes).values[k]
                == before.values[k] by {
                law_turned_out_keys_are_gone(before, key, bytes, k);
            }
            law_turned_out_keys_are_gone(before, key, bytes, key);
        }
        self.remove(key);
        if bytes > self.capacity / 8 || self.capacity == 0 {
            let mut rejected: Vec<RetainedKey> = Vec::new();
            rejected.push(key);
            assert(rejected@ =~= seq![key]);
            return rejected;
        }
        let ghost rest = self@;
        let ghost start = before.with_newcomer(key, bytes);
        proof {
            before.lemma_without(key);
            before.lemma_with_newcomer(key, bytes);
            lemma_totals_with(
                rest.values,
                key,
                RetainedValue { bytes, segment: Segment::Probationary },
            );
            lemma_totals_ordered(rest.values);
            if before.values.contains_key(key) {
                lemma_totals_without(before.values, key);
            }
        }
        self.values.insert(key, RetainedValue { bytes, segment: Segment::Probationary });
        self.probationary.push_back(key);
        self.retained_bytes = self.retained_bytes + bytes as u128;
        if key.is_serialized() {
            self.serialized_bytes = self.serialized_bytes + bytes as u128;
        }
        let mut evicted: Vec<RetainedKey> = Vec::new();
        assert(evicted@ + start.victims() =~= start.victims());
        while self.retained_bytes > self.capacity as u128
            invariant
                self.wf(),
                self@.queued_except(None),
                start.victims() == evicted@ + self@.victims(),
                start.fitted() == self@.fitted(),
            decreases self@.values.dom().len(),
        {
            let ghost now = self@;
            proof {
                now.lemma_victim_exists();
                now.lemma_without_victim();
            }
            match self.give_way() {
                Some(candidate) => {
                    let ghost evicted_before = evicted@;
                    evicted.push(candidate);
                    proof {
                        assert(now.victims() == seq![candidate] + self@.victims());
                        assert(evicted@ + self@.victims() =~= evicted_before + (seq![candidate]
                            + self@.victims()));
                    }
                },
                None => {
                    assert(false);
                    return evicted;
                },
            }
        }
        assert(self@.victims() =~= Seq::empty());
        assert(evicted@ + self@.victims() =~= evicted@);
        evicted
    }
}

/// Tells the keys outside a set.
spec fn outside(gone: Set<RetainedKey>) -> spec_fn(RetainedKey) -> bool {
    |k: RetainedKey| !gone.contains(k)
}

proof fn lemma_filter_all(queue: Seq<RetainedKey>)
    ensures
        queue.filter(|k: RetainedKey| true) == queue,
    decreases queue.len(),
{
    reveal(Seq::filter);
    if queue.len() > 0 {
        lemma_filter_all(queue.drop_last());
        assert(queue.drop_last().push(queue.last()) =~= queue);
    }
}

/// A key that is not retained is not queued either.
proof fn lemma_absent_key(m: RetentionModel, key: RetainedKey)
    requires
        m.sound(),
        !m.values.contains_key(key),
    ensures
        m.probationary.filter(other_key(key)) == m.probationary,
        m.protected.filter(other_key(key)) == m.protected,
{
    lemma_filter_all(m.probationary);
    lemma_filter_all(m.protected);
    lemma_filters_agree(m.probationary, |k: RetainedKey| true, other_key(key));
    lemma_filters_agree(m.protected, |k: RetainedKey| true, other_key(key));
}

impl RetentionModel {
    /// What is popped is the first of its kind to have come, and on probation where
    /// anything of its kind is.
    proof fn lemma_popped_in_order(self, serialized: bool)
        requires
            self.sound(),
        ensures
            self.oldest_key(serialized) matches Some(key) ==> {
                &&& !self.popped(serialized).probationary.contains(key)
                &&& !self.popped(serialized).protected.contains(key)
                &&& self.values[key].segment == Segment::Protected ==> forall|i: int|
                    0 <= i < self.probationary.len() ==> ((#[trigger] self.probationary[i])
                        is Serialized) != serialized
                &&& forall|i: int, j: int|
                    0 <= i < j < self.probationary.len() && (#[trigger] self.probationary[i]
                        is Serialized) == serialized ==> key != (#[trigger] self.probationary[j])
                &&& forall|i: int, j: int|
                    0 <= i < j < self.protected.len() && (#[trigger] self.protected[i]
                        is Serialized) == serialized ==> key != (#[trigger] self.protected[j])
            },
            self.oldest_key(serialized) matches Some(key) ==> {
                &&& forall|i: int|
                    0 <= i < self.probationary.len() && key == #[trigger] self.probationary[i]
                        ==> self.popped(serialized).probationary == self.probationary.skip(i + 1)
                        + self.probationary.take(i) && self.popped(serialized).protected
                        == self.protected
                &&& forall|i: int|
                    0 <= i < self.protected.len() && key == #[trigger] self.protected[i]
                        ==> self.popped(serialized).protected == self.protected.skip(i + 1)
                        + self.protected.take(i) && self.popped(serialized).probationary
                        == self.probationary
            },
            self.oldest_key(serialized) is None ==> {
                &&& self.popped(serialized) == self
                &&& forall|i: int|
                    0 <= i < self.probationary.len() ==> ((#[trigger] self.probationary[i])
                        is Serialized) != serialized
                &&& forall|i: int|
                    0 <= i < self.protected.len() ==> ((#[trigger] self.protected[i])
                        is Serialized) != serialized
            },
    {
        if has_kind(self.probationary, serialized) {
            let i = oldest(self.probationary, serialized);
            assert(first_of_kind(self.probationary, serialized, i));
            let key = self.probationary[i];
            lemma_taken_at(self.probationary, i);
            assert(self.values[key].segment == Segment::Probationary);
            assert(!self.protected.contains(key)) by {
                if self.protected.contains(key) {
                    assert(self.protected[self.protected.index_of(key)] == key);
                }
            }
            let after = self.popped(serialized).probationary;
            assert(!after.contains(key));
        } else {
            lemma_no_kind(self.probationary, serialized, self.probationary.len());
            if has_kind(self.protected, serialized) {
                let i = oldest(self.protected, serialized);
                assert(first_of_kind(self.protected, serialized, i));
                let key = self.protected[i];
                lemma_taken_at(self.protected, i);
                assert(!self.probationary.contains(key)) by {
                    if self.probationary.contains(key) {
                        assert(self.probationary[self.probationary.index_of(key)] == key);
                    }
                }
            } else {
                lemma_no_kind(self.protected, serialized, self.protected.len());
            }
        }
    }

    /// The last of the victims was needed: with it the bytes would not fit.
    proof fn lemma_last_victim(self)
        requires
            self.sound(),
            self.queued_except(None),
            0 <= self.capacity,
            total_bytes(self.values) > self.capacity,
        ensures
            self.victims().len() > 0,
            self.victims()[0] == self.victim()->0,
            self.values.contains_key(self.victims().last()),
            total_bytes(self.fitted().values) + self.values[self.victims().last()].bytes
                > self.capacity,
        decreases self.values.dom().len(),
    {
        self.lemma_victim_exists();
        self.lemma_without_victim();
        let key = self.victim()->0;
        let next = self.without_victim();
        lemma_totals_without(self.values, key);
        assert(self.victims() == seq![key] + next.victims());
        assert(self.fitted() == next.fitted());
        if total_bytes(next.values) > self.capacity {
            next.lemma_last_victim();
            assert(self.victims().last() == next.victims().last());
        } else {
            assert(next.victims() =~= Seq::empty());
            assert(self.victims() =~= seq![key]);
        }
    }

    /// Of two packets of one kind, the one on probation gives way before the
    /// protected one.
    proof fn lemma_protected_outlives(self, hot: RetainedKey, cold: RetainedKey)
        requires
            self.sound(),
            self.queued_except(None),
            0 <= self.capacity,
            (hot is Serialized) == (cold is Serialized),
            self.values.contains_key(hot),
            self.values[hot].segment == Segment::Protected,
            self.values.contains_key(cold),
            self.values[cold].segment == Segment::Probationary,
        ensures
            self.fitted().values.contains_key(cold) ==> self.fitted().values.contains_key(hot),
        decreases self.values.dom().len(),
    {
        if total_bytes(self.values) > self.capacity {
            self.lemma_victim_exists();
            self.lemma_without_victim();
            let key = self.victim()->0;
            let next = self.without_victim();
            self.lemma_fitted();
            if key == cold {
                next.lemma_fitted();
            } else if key == hot {
                let kind = self.victim_kind();
                self.lemma_popped(kind);
                law_probation_gives_way_first(self, kind);
            } else {
                next.lemma_protected_outlives(hot, cold);
            }
        }
    }

    /// A hit moves a key between the queues and keeps the totals.
    proof fn lemma_hit(self, key: RetainedKey)
        requires
            self.sound(),
        ensures
            self.hit(key).sound(),
            self.queued_except(None) ==> self.hit(key).queued_except(None),
            total_bytes(self.hit(key).values) == total_bytes(self.values),
            total_serialized(self.hit(key).values) == total_serialized(self.values),
    {
        let after = self.hit(key);
        if self.values.contains_key(key) && self.values[key].segment == Segment::Probationary {
            let value = after.values[key];
            let rest = self.values.remove(key);
            assert(after.values.dom() =~= self.values.dom());
            lemma_totals_without(self.values, key);
            lemma_totals_without(after.values, key);
            assert(after.values.remove(key) =~= rest);
            lemma_filtered(self.probationary, other_key(key));
            assert forall|i: int| 0 <= i < after.probationary.len() implies {
                &&& after.values.contains_key(#[trigger] after.probationary[i])
                &&& after.values[after.probationary[i]].segment == Segment::Probationary
            } by {
                let k = after.probationary[i];
                assert(after.probationary.contains(k));
                assert(self.probationary[self.probationary.index_of(k)] == k);
            }
            assert(!self.protected.contains(key)) by {
                if self.protected.contains(key) {
                    assert(self.values[self.protected[self.protected.index_of(key)]].segment
                        == Segment::Protected);
                }
            }
            assert forall|i: int| 0 <= i < after.protected.len() implies {
                &&& after.values.contains_key(#[trigger] after.protected[i])
                &&& after.values[after.protected[i]].segment == Segment::Protected
            } by {
                if i < self.protected.len() {
                    assert(after.protected[i] == self.protected[i]);
                }
            }
            assert forall|i: int, j: int|
                0 <= i < j < after.protected.len() implies after.protected[i]
                != after.protected[j] by {
                assert(after.protected[i] == self.protected[i]);
                assert(self.protected.contains(self.protected[i]));
            }
            if self.queued_except(None) {
                assert forall|k: RetainedKey| #[trigger]
                    after.values.contains_key(k) implies after.queue(
                    after.values[k].segment,
                ).contains(k) by {
                    if k == key {
                        assert(after.protected[self.protected.len() as int] == k);
                    } else {
                        assert(self.values.contains_key(k));
                        if self.values[k].segment == Segment::Protected {
                            assert(after.protected[self.protected.index_of(k)] == k);
                        }
                    }
                }
            }
        }
    }
}

/// Offering a packet to a retention at rest leaves it at rest: in particular the
/// retained bytes never exceed the capacity.
pub proof fn law_admission_keeps_settled(m: RetentionModel, key: RetainedKey, bytes: usize)
    requires
        m.settled(),
    ensures
        m.admitted(key, bytes).settled(),
        m.admitted(key, bytes).capacity == m.capacity,
        m.admitted(key, bytes).target == m.target,
{
    lemma_totals_ordered(m.values);
    m.lemma_without(key);
    if m.values.contains_key(key) {
        lemma_totals_without(m.values, key);
    }
    if !m.rejects(bytes) {
        m.lemma_with_newcomer(key, bytes);
        m.with_newcomer(key, bytes).lemma_fitted();
    }
}

/// A packet that fits beside what is retained is kept, and nothing gives way for it.
pub proof fn law_packet_that_fits_is_kept(m: RetentionModel, key: RetainedKey, bytes: usize)
    requires
        m.settled(),
        !m.rejects(bytes),
        total_bytes(m.without(key).values) + bytes <= m.capacity,
    ensures
        m.admitted(key, bytes) == m.with_newcomer(key, bytes),
        m.turned_out(key, bytes) == Seq::<RetainedKey>::empty(),
        m.admitted(key, bytes).values == m.values.insert(
            key,
            RetainedValue { bytes, segment: Segment::Probationary },
        ),
        total_bytes(m.admitted(key, bytes).values) == total_bytes(m.without(key).values) + bytes,
{
    let value = RetainedValue { bytes, segment: Segment::Probationary };
    m.lemma_without(key);
    m.lemma_with_newcomer(key, bytes);
    lemma_totals_with(m.without(key).values, key, value);
    assert(m.without(key).values.insert(key, value) =~= m.values.insert(key, value));
}

/// Removals and hits leave a retention at rest.
pub proof fn law_upkeep_keeps_settled(
    m: RetentionModel,
    key: RetainedKey,
    instance_id: u64,
    revision: u64,
)
    requires
        m.settled(),
    ensures
        m.without(key).settled(),
        m.hit(key).settled(),
        m.without_revision(instance_id, revision).settled(),
{
    m.lemma_without(key);
    m.lemma_hit(key);
    lemma_totals_ordered(m.values);
    if m.values.contains_key(key) {
        lemma_totals_without(m.values, key);
    }
    let after = m.without_revision(instance_id, revision);
    let keep = other_revision(instance_id, revision);
    assert(after.values.dom() =~= m.values.dom().filter(keep));
    lemma_filtered(m.probationary, keep);
    lemma_filtered(m.protected, keep);
    assert forall|i: int| 0 <= i < after.probationary.len() implies {
        &&& after.values.contains_key(#[trigger] after.probationary[i])
        &&& after.values[after.probationary[i]].segment == Segment::Probationary
    } by {
        let k = after.probationary[i];
        assert(after.probationary.contains(k));
        assert(m.probationary[m.probationary.index_of(k)] == k);
    }
    assert forall|i: int| 0 <= i < after.protected.len() implies {
        &&& after.values.contains_key(#[trigger] after.protected[i])
        &&& after.values[after.protected[i]].segment == Segment::Protected
    } by {
        let k = after.protected[i];
        assert(after.protected.contains(k));
        assert(m.protected[m.protected.index_of(k)] == k);
    }
    lemma_part_totals(after.values, m.values);
}

/// A part of the packets takes no more than all of them.
proof fn lemma_part_totals(
    part: Map<RetainedKey, RetainedValue>,
    whole: Map<RetainedKey, RetainedValue>,
)
    requires
        whole.dom().finite(),
        part.dom().finite(),
        forall|k: RetainedKey| #[trigger]
            part.contains_key(k) ==> whole.contains_key(k) && whole[k] == part[k],
    ensures
        total_bytes(part) <= total_bytes(whole),
    decreases part.dom().len(),
{
    if part.dom().len() == 0 {
        lemma_totals_ordered(whole);
    } else {
        let key = part.dom().choose();
        assert(part.dom().contains(key)) by {
            if part.dom() =~= Set::empty() {
                assert(part.dom().len() == 0);
            }
        }
        assert(part.contains_key(key));
        assert(part.remove(key).dom() =~= part.dom().remove(key));
        assert(whole.remove(key).dom() =~= whole.dom().remove(key));
        lemma_part_totals(part.remove(key), whole.remove(key));
        lemma_totals_without(whole, key);
    }
}

/// What has to go when a packet is offered is not retained afterwards; everything
/// else that was retained still is, unchanged, and so is the packet unless it has
/// to go itself.
pub proof fn law_turned_out_keys_are_gone(
    m: RetentionModel,
    key: RetainedKey,
    bytes: usize,
    k: RetainedKey,
)
    requires
        m.settled(),
    ensures
        m.turned_out(key, bytes).contains(k) ==> !m.admitted(key, bytes).values.contains_key(k),
        k != key && !m.turned_out(key, bytes).contains(k) ==> (m.admitted(
            key,
            bytes,
        ).values.contains_key(k) <==> m.values.contains_key(k)),
        k != key && m.admitted(key, bytes).values.contains_key(k) ==> m.admitted(
            key,
            bytes,
        ).values[k] == m.values[k],
        m.admitted(key, bytes).values.contains_key(key) <==> !m.turned_out(key, bytes).contains(
            key,
        ),
        m.admitted(key, bytes).values.contains_key(key) ==> m.admitted(key, bytes).values[key]
            == (RetainedValue { bytes, segment: Segment::Probationary }),
{
    lemma_totals_ordered(m.values);
    m.lemma_without(key);
    if m.rejects(bytes) {
        assert(seq![key][0] == key);
    } else {
        m.lemma_with_newcomer(key, bytes);
        m.with_newcomer(key, bytes).lemma_fitted();
    }
}

/// Of one kind, a packet that was asked for again gives way only when none is left
/// on probation.
pub proof fn law_probation_gives_way_first(m: RetentionModel, serialized: bool)
    requires
        m.sound(),
        m.queued_except(None),
    ensures
        m.oldest_key(serialized) is Some && m.values[m.oldest_key(serialized)->0].segment
            == Segment::Protected ==> forall|k: RetainedKey| #[trigger]
            m.values.contains_key(k) && (k is Serialized) == serialized ==> m.values[k].segment
                == Segment::Protected,
{
    if has_kind(m.probationary, serialized) {
        let i = oldest(m.probationary, serialized);
        assert(first_of_kind(m.probationary, serialized, i));
        assert(m.values[m.probationary[i]].segment == Segment::Probationary);
    } else {
        assert forall|k: RetainedKey| #[trigger] m.values.contains_key(k) && (k is Serialized)
            == serialized implies m.values[k].segment == Segment::Protected by {
            if m.values[k].segment == Segment::Probationary {
                let j = m.probationary.index_of(k);
                assert(m.probationary[j] == k);
                lemma_no_kind(m.probationary, serialized, m.probationary.len());
            }
        }
    }
}

/// Serialized packets give way first exactly while they exceed their target; the
/// other kind gives way only where the preferred kind has nothing retained.
pub proof fn law_target_decides_the_kind(m: RetentionModel)
    requires
        m.sound(),
        m.queued_except(None),
    ensures
        m.victim() is Some && (m.victim()->0 is Serialized) != (total_serialized(m.values)
            > m.target) ==> forall|k: RetainedKey| #[trigger]
            m.values.contains_key(k) ==> (k is Serialized) == (m.victim()->0 is Serialized),
{
    let preferred = total_serialized(m.values) > m.target;
    m.lemma_popped(preferred);
    m.lemma_popped(!preferred);
    if m.oldest_key(preferred) is None {
        assert forall|k: RetainedKey| #[trigger] m.values.contains_key(k) implies (k is Serialized)
            != preferred by {
            let queue = m.queue(m.values[k].segment);
            assert(queue.contains(k));
            lemma_no_kind(queue, preferred, queue.len());
            assert(queue[queue.index_of(k)] == k);
        }
    }
}

/// Where the key at place `i` of a queue stands once another key has left it.
spec fn place_without(queue: Seq<RetainedKey>, key: RetainedKey, i: int) -> int {
    if queue.contains(key) && queue.index_of(key) < i {
        i - 1
    } else {
        i
    }
}

/// A queue keeps its order when a key leaves it.
proof fn lemma_order_without(queue: Seq<RetainedKey>, key: RetainedKey)
    requires
        queue.no_duplicates(),
    ensures
        forall|i: int|
            0 <= i < queue.len() && #[trigger] queue[i] != key ==> {
                &&& 0 <= place_without(queue, key, i) < queue.filter(other_key(key)).len()
                &&& queue.filter(other_key(key))[place_without(queue, key, i)] == queue[i]
            },
{
    if queue.contains(key) {
        let p = queue.index_of(key);
        lemma_filter_one(queue, key, p);
    } else {
        lemma_filter_all(queue);
        lemma_filters_agree(queue, |k: RetainedKey| true, other_key(key));
    }
}

/// A key that leaves a queue leaves one place.
proof fn lemma_left_queue(queue: Seq<RetainedKey>, key: RetainedKey)
    requires
        queue.no_duplicates(),
    ensures
        forall|p: int|
            0 <= p < queue.len() && #[trigger] queue[p] == key ==> queue.filter(other_key(key))
                == queue.remove(p),
        !queue.contains(key) ==> queue.filter(other_key(key)) == queue,
{
    assert forall|p: int| 0 <= p < queue.len() && #[trigger] queue[p] == key implies queue.filter(
        other_key(key),
    ) == queue.remove(p) by {
        lemma_filter_one(queue, key, p);
    }
    if !queue.contains(key) {
        lemma_filter_all(queue);
        lemma_filters_agree(queue, |k: RetainedKey| true, other_key(key));
    }
}

proof fn lemma_filter_one(queue: Seq<RetainedKey>, key: RetainedKey, p: int)
    requires
        queue.no_duplicates(),
        0 <= p < queue.len(),
        queue[p] == key,
    ensures
        queue.filter(other_key(key)) == queue.remove(p),
    decreases queue.len(),
{
    reveal(Seq::filter);
    let init = queue.drop_last();
    if p == queue.len() - 1 {
        lemma_filter_all(init);
        lemma_filters_agree(init, |k: RetainedKey| true, other_key(key));
        assert(init =~= queue.remove(p));
    } else {
        lemma_filter_one(init, key, p);
        assert(queue.last() == queue[queue.len() - 1]);
        assert(init.remove(p).push(queue.last()) =~= queue.remove(p));
    }
}

/// What an offer does, in numbers: a packet above an eighth of the capacity is turned
/// away, and nothing else is; one that leaves the whole within the capacity is
/// retained with its bytes, and nothing gives way; otherwise packets give way, and no
/// more of them than the capacity asks for.
pub proof fn law_offer_in_numbers(m: RetentionModel, key: RetainedKey, bytes: usize)
    requires
        m.settled(),
    ensures
        m.capacity == 0 || bytes > m.capacity / 8 ==> {
            &&& m.turned_out(key, bytes) == seq![key]
            &&& m.admitted(key, bytes).values == m.values.remove(key)
        },
        0 < m.capacity && 8 * bytes <= m.capacity && total_bytes(m.values.remove(key)) + bytes
            <= m.capacity ==> {
            &&& m.turned_out(key, bytes).len() == 0
            &&& m.admitted(key, bytes).probationary == m.without(key).probationary.push(key)
            &&& m.admitted(key, bytes).protected == m.without(key).protected
            &&& m.admitted(key, bytes).values == m.values.insert(
                key,
                RetainedValue { bytes, segment: Segment::Probationary },
            )
        },
        0 < m.capacity && 8 * bytes <= m.capacity && total_bytes(m.values.remove(key)) + bytes
            > m.capacity ==> {
            let out = m.turned_out(key, bytes);
            let size = if out.last() == key {
                bytes
            } else {
                m.values[out.last()].bytes
            };
            &&& out.len() > 0
            &&& out.last() == key || m.values.contains_key(out.last())
            &&& total_bytes(m.admitted(key, bytes).values) + size > m.capacity
        },
        total_bytes(m.admitted(key, bytes).values) <= m.capacity,
        m.admitted(key, bytes).capacity == m.capacity,
        m.admitted(key, bytes).target == m.target,
{
    law_admission_keeps_settled(m, key, bytes);
    lemma_totals_ordered(m.values);
    m.lemma_without(key);
    let rest = m.without(key);
    assert(rest.values =~= m.values.remove(key));
    if 0 < m.capacity && 8 * bytes <= m.capacity {
        let value = RetainedValue { bytes, segment: Segment::Probationary };
        m.lemma_with_newcomer(key, bytes);
        lemma_totals_with(rest.values, key, value);
        let start = m.with_newcomer(key, bytes);
        assert(start.values =~= m.values.insert(key, value));
        start.lemma_fitted();
        if total_bytes(start.values) > m.capacity {
            start.lemma_last_victim();
        }
    }
}

/// Whatever is offered, a packet that was asked for again outlives every other
/// packet of its kind that was asked for once, the newcomer among them.
pub proof fn law_asked_again_outlives_asked_once(
    m: RetentionModel,
    key: RetainedKey,
    bytes: usize,
    hot: RetainedKey,
    cold: RetainedKey,
)
    requires
        m.settled(),
        hot != key,
        (hot is Serialized) == (cold is Serialized),
        m.values.contains_key(hot),
        m.values[hot].segment == Segment::Protected,
        cold != key ==> m.values.contains_key(cold) && m.values[cold].segment
            == Segment::Probationary,
    ensures
        m.admitted(key, bytes).values.contains_key(cold) ==> m.admitted(
            key,
            bytes,
        ).values.contains_key(hot),
        m.turned_out(key, bytes).contains(hot) ==> m.turned_out(key, bytes).contains(cold),
{
    lemma_totals_ordered(m.values);
    m.lemma_without(key);
    law_turned_out_keys_are_gone(m, key, bytes, hot);
    law_turned_out_keys_are_gone(m, key, bytes, cold);
    if !m.rejects(bytes) {
        m.lemma_with_newcomer(key, bytes);
        m.with_newcomer(key, bytes).lemma_protected_outlives(hot, cold);
    }
}

/// Which packet is the first to give way to a newcomer: one of the kind that the
/// target names, unless none of that kind is retained; of that kind one on
/// probation, where there is any; and among those the one that came first.
pub proof fn law_first_to_give_way(m: RetentionModel, key: RetainedKey, bytes: usize)
    requires
        m.settled(),
        0 < m.capacity,
        8 * bytes <= m.capacity,
        total_bytes(m.values.remove(key)) + bytes > m.capacity,
    ensures
        ({
            let offered = m.values.insert(
                key,
                RetainedValue { bytes, segment: Segment::Probationary },
            );
            let first = m.turned_out(key, bytes)[0];
            &&& m.turned_out(key, bytes).len() > 0
            &&& offered.contains_key(first)
            &&& (first is Serialized) != (total_serialized(offered) > m.target) ==> forall|
                k: RetainedKey,
            | #[trigger]
                offered.contains_key(k) ==> (k is Serialized) == (first is Serialized)
            &&& offered[first].segment == Segment::Protected ==> forall|k: RetainedKey| #[trigger]
                offered.contains_key(k) && (k is Serialized) == (first is Serialized)
                    ==> offered[k].segment == Segment::Protected
            &&& first == key ==> forall|k: RetainedKey| #[trigger]
                offered.contains_key(k) && k != key && (k is Serialized) == (key is Serialized)
                    ==> offered[k].segment == Segment::Protected
            &&& forall|i: int, j: int|
                0 <= i < j < m.probationary.len() && m.probationary[i] != key && ((
                #[trigger] m.probationary[i]) is Serialized) == ((#[trigger] m.probationary[j])
                    is Serialized) ==> first != m.probationary[j]
            &&& forall|i: int, j: int|
                0 <= i < j < m.protected.len() && m.protected[i] != key && m.protected[j] != key
                    && ((#[trigger] m.protected[i]) is Serialized) == ((#[trigger] m.protected[j])
                    is Serialized) ==> first != m.protected[j]
        }),
{
    lemma_totals_ordered(m.values);
    m.lemma_without(key);
    m.lemma_with_newcomer(key, bytes);
    let value = RetainedValue { bytes, segment: Segment::Probationary };
    let rest = m.without(key);
    let start = m.with_newcomer(key, bytes);
    assert(rest.values =~= m.values.remove(key));
    lemma_totals_with(rest.values, key, value);
    assert(start.values =~= m.values.insert(key, value));
    start.lemma_last_victim();
    start.lemma_victim_exists();
    start.lemma_without_victim();
    let first = start.victim()->0;
    let kind = start.victim_kind();
    start.lemma_popped(kind);
    start.lemma_popped_in_order(kind);
    law_target_decides_the_kind(start);
    law_probation_gives_way_first(start, kind);
    lemma_order_without(m.probationary, key);
    lemma_order_without(m.protected, key);
    if !m.values.contains_key(key) {
        lemma_absent_key(m, key);
    }
    let queue = m.probationary.filter(other_key(key));
    assert(start.probationary =~= queue.push(key));
    assert(start.protected == m.protected.filter(other_key(key)));
    assert forall|i: int, j: int|
        0 <= i < j < m.probationary.len() && m.probationary[i] != key && ((
        #[trigger] m.probationary[i]) is Serialized) == ((#[trigger] m.probationary[j])
            is Serialized) implies first != m.probationary[j] by {
        if first == m.probationary[j] {
            let a = place_without(m.probationary, key, i);
            assert(queue[a] == m.probationary[i]);
            assert(start.probationary[a] == queue[a]);
            if m.probationary[j] == key {
                assert(start.probationary[queue.len() as int] == key);
            } else {
                let b = place_without(m.probationary, key, j);
                assert(queue[b] == m.probationary[j]);
                assert(start.probationary[b] == queue[b]);
            }
        }
    }
    assert forall|i: int, j: int|
        0 <= i < j < m.protected.len() && m.protected[i] != key && m.protected[j] != key && ((
        #[trigger] m.protected[i]) is Serialized) == ((#[trigger] m.protected[j])
            is Serialized) implies first
        != m.protected[j] by {
        if first == m.protected[j] {
            let a = place_without(m.protected, key, i);
            assert(start.protected[a] == m.protected[i]);
            let b = place_without(m.protected, key, j);
            assert(start.protected[b] == m.protected[j]);
        }
    }
    if first == key {
        assert forall|k: RetainedKey| #[trigger] start.values.contains_key(k) && k != key && (
        k is Serialized) == (key is Serialized) implies start.values[k].segment
            == Segment::Protected by {
            if start.values[k].segment == Segment::Probationary {
                assert(start.probationary.contains(k));
                let a = start.probationary.index_of(k);
                assert(start.probationary[queue.len() as int] == key);
                assert(start.probationary[a] == k);
            }
        }
    }
}

impl RetentionModel {
    /// The retention after one packet after another was offered.
    pub open spec fn offered_all(self, offers: Seq<(RetainedKey, usize)>) -> RetentionModel
        decreases offers.len(),
    {
        if offers.len() == 0 {
            self
        } else {
            self.offered_all(offers.drop_last()).admitted(offers.last().0, offers.last().1)
        }
    }
}

/// A packet that was asked for again outlives one of its kind that was asked for
/// once, however many other packets are offered after them.
pub proof fn law_asked_again_outlives_in_the_long_run(
    m: RetentionModel,
    offers: Seq<(RetainedKey, usize)>,
    hot: RetainedKey,
    cold: RetainedKey,
)
    requires
        m.settled(),
        (hot is Serialized) == (cold is Serialized),
        m.values.contains_key(hot),
        m.values[hot].segment == Segment::Protected,
        m.values.contains_key(cold),
        m.values[cold].segment == Segment::Probationary,
        forall|i: int|
            0 <= i < offers.len() ==> (#[trigger] offers[i]).0 != hot && offers[i].0 != cold,
    ensures
        m.offered_all(offers).settled(),
        m.offered_all(offers).values.contains_key(cold) ==> m.offered_all(
            offers,
        ).values.contains_key(hot),
        m.offered_all(offers).values.contains_key(hot) ==> m.offered_all(offers).values[hot]
            == m.values[hot],
        m.offered_all(offers).values.contains_key(cold) ==> m.offered_all(offers).values[cold]
            == m.values[cold],
    decreases offers.len(),
{
    if offers.len() > 0 {
        let init = offers.drop_last();
        let (key, bytes) = offers.last();
        assert(offers[offers.len() - 1] == (key, bytes));
        assert forall|i: int| 0 <= i < init.len() implies (#[trigger] init[i]).0 != hot
            && init[i].0 != cold by {
            assert(offers[i] == init[i]);
        }
        law_asked_again_outlives_in_the_long_run(m, init, hot, cold);
        let before = m.offered_all(init);
        law_admission_keeps_settled(before, key, bytes);
        law_turned_out_keys_are_gone(before, key, bytes, hot);
        law_turned_out_keys_are_gone(before, key, bytes, cold);
        if before.values.contains_key(cold) {
            law_asked_again_outlives_asked_once(before, key, bytes, hot, cold);
        } else {
            law_turned_out_gone_stays_gone(before, key, bytes, cold);
        }
    }
}

/// An offer brings back no packet but the one that is offered.
pub proof fn law_turned_out_gone_stays_gone(
    m: RetentionModel,
    key: RetainedKey,
    bytes: usize,
    k: RetainedKey,
)
    requires
        m.settled(),
        k != key,
        !m.values.contains_key(k),
    ensures
        !m.admitted(key, bytes).values.contains_key(k),
{
    lemma_totals_ordered(m.values);
    m.lemma_without(key);
    if !m.rejects(bytes) {
        m.lemma_with_newcomer(key, bytes);
        m.with_newcomer(key, bytes).lemma_fitted();
    }
}

/// Being asked for again, in raw values: the packet is protected and keeps its bytes,
/// it stands behind every protected packet, and nothing else changes.
pub proof fn law_asked_again_is_protected(m: RetentionModel, key: RetainedKey)
    requires
        m.settled(),
        m.values.contains_key(key),
    ensures
        m.hit(key).values == m.values.insert(
            key,
            RetainedValue { bytes: m.values[key].bytes, segment: Segment::Protected },
        ),
        m.values[key].segment == Segment::Probationary ==> m.hit(key).protected == m.protected.push(
            key,
        ),
        m.values[key].segment == Segment::Protected ==> m.hit(key).protected == m.protected,
        m.hit(key).capacity == m.capacity,
        m.hit(key).target == m.target,
{
    assert(m.hit(key).values =~= m.values.insert(
        key,
        RetainedValue { bytes: m.values[key].bytes, segment: Segment::Protected },
    ));
}

/// The totals are those of the packets: nothing counts for nothing, and a packet
/// counts for its bytes, among the serialized ones where it is one.
pub proof fn law_totals_add_up(
    values: Map<RetainedKey, RetainedValue>,
    key: RetainedKey,
    value: RetainedValue,
)
    requires
        values.dom().finite(),
        !values.contains_key(key),
    ensures
        total_bytes(Map::empty()) == 0,
        total_serialized(Map::empty()) == 0,
        total_bytes(values.insert(key, value)) == total_bytes(values) + value.bytes,
        total_serialized(values.insert(key, value)) == total_serialized(values) + (
        if key is Serialized {
            value.bytes as int
        } else {
            0
        }),
{
    lemma_totals_with(values, key, value);
    let none = Map::<RetainedKey, RetainedValue>::empty();
    assert(none.dom() =~= Set::empty());
}

/// Filtering a queue keeps its order.
proof fn lemma_filter_keeps_order(queue: Seq<RetainedKey>, keep: spec_fn(RetainedKey) -> bool)
    requires
        queue.no_duplicates(),
    ensures
        forall|i: int, j: int|
            0 <= i < j < queue.filter(keep).len() ==> queue.index_of(
                #[trigger] queue.filter(keep)[i],
            ) < queue.index_of(#[trigger] queue.filter(keep)[j]),
    decreases queue.len(),
{
    reveal(Seq::filter);
    if queue.len() > 0 {
        let init = queue.drop_last();
        let (rest, all) = (init.filter(keep), queue.filter(keep));
        lemma_filter_keeps_order(init, keep);
        lemma_filtered(init, keep);
        assert forall|k: RetainedKey| #[trigger] rest.contains(k) implies queue.index_of(k)
            == init.index_of(k) && 0 <= init.index_of(k) < init.len() by {
            let i = init.index_of(k);
            assert(init.contains(k));
            assert(queue[i] == k);
            assert(queue[queue.index_of(k)] == k);
        }
        assert forall|i: int, j: int| 0 <= i < j < all.len() implies queue.index_of(
            #[trigger] all[i],
        ) < queue.index_of(#[trigger] all[j]) by {
            assert(rest[i] == all[i]);
            assert(rest.contains(rest[i]));
            if j < rest.len() {
                assert(rest[j] == all[j]);
                assert(rest.contains(rest[j]));
            } else {
                assert(all[j] == queue[queue.len() - 1]);
                assert(queue[queue.index_of(all[j])] == all[j]);
            }
        }
    }
}

} // verus!
