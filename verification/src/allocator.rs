//! Storage for many short collections. Collections of similar length share a
//! bucket, and a collection moves to another bucket as it grows or shrinks.

use vstd::arithmetic::power2::{lemma2_to64, pow2};
use vstd::prelude::*;

verus! {

/// The longest collection that an allocator holds.
pub const MAX_LEN: u32 = 32;

/// The most slots for which buffer space can be asked: a slot takes fewer than 32
/// bytes of it, and a buffer is no larger than half the address space.
pub const MAX_CAPACITY: usize = usize::MAX / 64;

/// How many buckets there are.
pub const BUCKETS: usize = 6;

/// The bucket for collections of length `len`.
pub open spec fn bucket_of(len: int) -> nat {
    if len <= 1 {
        0
    } else if len <= 2 {
        1
    } else if len <= 4 {
        2
    } else if len <= 8 {
        3
    } else if len <= 16 {
        4
    } else {
        5
    }
}

/// The bucket for collections of length `len`.
fn choose_bucket(len: u32) -> (r: usize)
    ensures
        r == bucket_of(len as int),
        r < BUCKETS,
{
    if len <= 1 {
        0
    } else if len <= 2 {
        1
    } else if len <= 4 {
        2
    } else if len <= 8 {
        3
    } else if len <= 16 {
        4
    } else {
        5
    }
}

/// Where a collection is stored: the bucket, and the slot in it.
pub type Key = (nat, nat);

/// A collection in an allocator: its length, which tells the bucket, and its
/// slot in that bucket.
#[derive(Clone, Copy, Debug, PartialEq, Eq, Structural)]
pub struct AllocatorHandle {
    pub len: u32,
    pub offset: usize,
}

impl AllocatorHandle {
    /// The handle for a collection of `len` items in slot `offset` of its bucket.
    pub fn generate(len: u32, offset: usize) -> (r: Self)
        ensures
            r == (AllocatorHandle { len, offset }),
    {
        AllocatorHandle { len, offset }
    }

    /// Where the collection is stored.
    pub open spec fn key(self) -> Key {
        (bucket_of(self.len as int), self.offset as nat)
    }
}

/// Which slots of a bucket are in use: how many there are, and those that were
/// vacated, the latest last.
pub struct SlotUse {
    pub count: nat,
    pub vacant: Seq<usize>,
}

impl SlotUse {
    /// A bucket without slots.
    pub open spec fn unused() -> Self {
        SlotUse { count: 0, vacant: Seq::empty() }
    }

    /// The slot that is handed out next: the one vacated last, or a new one.
    pub open spec fn next(self) -> nat {
        if self.vacant.len() > 0 {
            self.vacant.last() as nat
        } else {
            self.count
        }
    }

    /// The next slot is handed out.
    pub open spec fn taken(self) -> Self {
        if self.vacant.len() > 0 {
            SlotUse { vacant: self.vacant.drop_last(), ..self }
        } else {
            SlotUse { count: self.count + 1, ..self }
        }
    }

    /// Slot `i` is vacated.
    pub open spec fn vacated(self, i: usize) -> Self {
        SlotUse { vacant: self.vacant.push(i), ..self }
    }
}

/// The slots for collections of similar length. Vacated slots are used again.
struct Bucket<T> {
    slots: Vec<Vec<T>>,
    vacant: Vec<usize>,
}

impl<T> Bucket<T> {
    /// Each vacant slot is listed once.
    spec fn wf(self) -> bool {
        &&& forall|j: int| 0 <= j < self.vacant@.len() ==> self.vacant@[j] < self.slots@.len()
        &&& self.vacant@.no_duplicates()
    }

    /// The collections in the slots that are not vacant.
    spec fn contents(self) -> Map<nat, Seq<T>> {
        Map::new(
            |i: nat| i < self.slots.len() && !self.vacant@.contains(i as usize),
            |i: nat| self.slots@[i as int]@,
        )
    }

    /// Which slots are in use.
    spec fn usage(self) -> SlotUse {
        SlotUse { count: self.slots@.len(), vacant: self.vacant@ }
    }

    /// A bucket without collections, with buffer space for `n` slots.
    fn with_capacity(n: usize) -> (r: Self)
        requires
            n <= MAX_CAPACITY,
        ensures
            r.wf(),
            r.contents() == Map::<nat, Seq<T>>::empty(),
            r.usage() == SlotUse::unused(),
    {
        let r = Bucket { slots: Vec::with_capacity(n), vacant: Vec::new() };
        assert(r.contents() =~= Map::<nat, Seq<T>>::empty());
        r
    }

    /// Stores a collection in a slot of its own.
    fn place(&mut self, content: Vec<T>) -> (r: usize)
        requires
            old(self).wf(),
        ensures
            final(self).wf(),
            r == old(self).usage().next(),
            final(self).usage() == old(self).usage().taken(),
            !old(self).contents().contains_key(r as nat),
            final(self).contents() == old(self).contents().insert(r as nat, content@),
    {
        let ghost before = self.contents();
        let ghost vacant = self.vacant@;
        let ghost stored = content@;
        let r: usize = match self.vacant.pop() {
            Some(i) => {
                assert(vacant.last() == i);
                assert forall|j: int| 0 <= j < self.vacant@.len() implies self.vacant@[j] != i by {
                    assert(vacant[j] == self.vacant@[j]);
                }
                assert forall|k: usize| k != i implies vacant.contains(k) == self.vacant@.contains(
                    k,
                ) by {
                    if vacant.contains(k) {
                        let j: int = choose|j: int| 0 <= j < vacant.len() && vacant[j] == k;
                        assert(self.vacant@[j] == k);
                    }
                    if self.vacant@.contains(k) {
                        let j: int = choose|j: int|
                            0 <= j < self.vacant@.len() && self.vacant@[j] == k;
                        assert(vacant[j] == k);
                    }
                }
                self.slots[i] = content;
                i
            },
            None => {
                let i: usize = self.slots.len();
                self.slots.push(content);
                i
            },
        };
        assert(self.contents() =~= before.insert(r as nat, stored));
        r
    }

    /// Takes a collection out of its slot.
    fn vacate(&mut self, i: usize) -> (r: Vec<T>)
        requires
            old(self).wf(),
            old(self).contents().contains_key(i as nat),
        ensures
            final(self).wf(),
            r@ == old(self).contents()[i as nat],
            final(self).usage() == old(self).usage().vacated(i),
            final(self).contents() == old(self).contents().remove(i as nat),
    {
        let ghost before = self.contents();
        let ghost vacant = self.vacant@;
        let mut r: Vec<T> = Vec::new();
        std::mem::swap(&mut self.slots[i], &mut r);
        self.vacant.push(i);
        assert forall|k: usize| self.vacant@.contains(k) == (vacant.contains(k) || k == i) by {
            assert(self.vacant@[vacant.len() as int] == i);
            if vacant.contains(k) {
                let j: int = choose|j: int| 0 <= j < vacant.len() && vacant[j] == k;
                assert(self.vacant@[j] == k);
            }
        }
        assert(self.contents() =~= before.remove(i as nat));
        r
    }
}

/// An allocator for collections of `T`.
pub struct Allocator<T> {
    buckets: Vec<Bucket<T>>,
}

impl<T> View for Allocator<T> {
    type V = Map<Key, Seq<T>>;

    /// The collections in the allocator.
    closed spec fn view(&self) -> Map<Key, Seq<T>> {
        Map::new(
            |k: Key| k.0 < BUCKETS && self.buckets@[k.0 as int].contents().contains_key(k.1),
            |k: Key| self.buckets@[k.0 as int].contents()[k.1],
        )
    }
}

impl<T> Allocator<T> {
    /// There are all buckets, and each is in order.
    pub closed spec fn wf(self) -> bool {
        &&& self.buckets@.len() == BUCKETS
        &&& forall|b: int| 0 <= b < BUCKETS ==> (#[trigger] self.buckets@[b]).wf()
    }

    /// Which slots of bucket `b` are in use.
    pub closed spec fn usage(self, b: nat) -> SlotUse {
        self.buckets@[b as int].usage()
    }

    /// The slot that bucket `b` hands out next.
    pub open spec fn next_offset(self, b: nat) -> nat {
        self.usage(b).next()
    }

    /// The same slots are in use.
    pub open spec fn same_usage(self, other: Self) -> bool {
        forall|b: nat|
            b < BUCKETS ==> {
                &&& #[trigger] other.usage(b) == self.usage(b)
                &&& other.next_offset(b) == self.next_offset(b)
            }
    }

    /// The slots in use once a collection in `slot` of bucket `from` has moved to
    /// bucket `to`, if that is another bucket.
    pub open spec fn usage_moved(self, other: Self, from: nat, slot: usize, to: nat) -> bool {
        forall|b: nat|
            b < BUCKETS ==> {
                &&& #[trigger] other.usage(b) == (if from == to {
                    self.usage(b)
                } else if b == from {
                    self.usage(b).vacated(slot)
                } else if b == to {
                    self.usage(b).taken()
                } else {
                    self.usage(b)
                })
                &&& from == to || b != from && b != to ==> other.next_offset(b)
                    == self.next_offset(b)
            }
    }

    /// The handle stands for a collection in this allocator.
    pub open spec fn holds(self, hdl: AllocatorHandle) -> bool {
        self@.contains_key(hdl.key()) && self@[hdl.key()].len() == hdl.len
    }

    /// An empty allocator. The buffer of each bucket has room for `n` slots.
    pub fn with_capacity(n: usize) -> (r: Self)
        requires
            n <= MAX_CAPACITY,
        ensures
            r.wf(),
            r@ == Map::<Key, Seq<T>>::empty(),
            forall|b: nat| b < BUCKETS ==> #[trigger] r.usage(b) == SlotUse::unused(),
    {
        let mut buckets: Vec<Bucket<T>> = Vec::with_capacity(BUCKETS);
        let mut i: usize = 0;
        while i < BUCKETS
            invariant
                n <= MAX_CAPACITY,
                i <= BUCKETS,
                buckets@.len() == i,
                forall|b: int|
                    0 <= b < i ==> {
                        &&& (#[trigger] buckets@[b]).wf()
                        &&& buckets@[b].contents() == Map::<nat, Seq<T>>::empty()
                        &&& buckets@[b].usage() == SlotUse::unused()
                    },
            decreases BUCKETS - i,
        {
            buckets.push(Bucket::with_capacity(n));
            i = i + 1;
        }
        let r = Allocator { buckets };
        assert(r@ =~= Map::<Key, Seq<T>>::empty());
        r
    }

    /// Adds an empty collection, with buffer space for `room` items.
    pub fn allocate(&mut self, room: u32) -> (r: AllocatorHandle)
        requires
            old(self).wf(),
            room <= MAX_LEN,
        ensures
            final(self).wf(),
            r.len == 0,
            r.offset == old(self).next_offset(0),
            forall|b: nat|
                b < BUCKETS ==> {
                    &&& #[trigger] final(self).usage(b) == (if b == 0 {
                        old(self).usage(b).taken()
                    } else {
                        old(self).usage(b)
                    })
                    &&& b != 0 ==> final(self).next_offset(b) == old(self).next_offset(b)
                },
            !old(self)@.contains_key(r.key()),
            final(self)@ == old(self)@.insert(r.key(), Seq::<T>::empty()),
    {
        let ghost before = self@;
        let slot: usize = self.buckets[0].place(Vec::with_capacity(room as usize));
        let r = AllocatorHandle::generate(0, slot);
        assert(self@ =~= before.insert(r.key(), Seq::<T>::empty()));
        r
    }

    /// Moves a collection from one bucket to another.
    fn transfer(&mut self, from: usize, slot: usize, to: usize) -> (r: usize)
        requires
            old(self).wf(),
            from < BUCKETS,
            to < BUCKETS,
            from != to,
            old(self)@.contains_key((from as nat, slot as nat)),
        ensures
            final(self).wf(),
            r == old(self).next_offset(to as nat),
            old(self).usage_moved(*final(self), from as nat, slot, to as nat),
            !old(self)@.contains_key((to as nat, r as nat)),
            final(self)@ == old(self)@.remove((from as nat, slot as nat)).insert(
                (to as nat, r as nat),
                old(self)@[(from as nat, slot as nat)],
            ),
    {
        let ghost before = self@;
        let content = self.buckets[from].vacate(slot);
        let r: usize = self.buckets[to].place(content);
        assert(self@ =~= before.remove((from as nat, slot as nat)).insert(
            (to as nat, r as nat),
            before[(from as nat, slot as nat)],
        ));
        r
    }

    /// Puts `value` at `index` of a collection; the items from there on move up.
    /// The handle changes with the length of the collection.
    pub fn insert(&mut self, hdl: &mut AllocatorHandle, index: u32, value: T)
        requires
            old(self).wf(),
            old(self).holds(*old(hdl)),
            index <= old(hdl).len,
            old(hdl).len < MAX_LEN,
        ensures
            final(self).wf(),
            final(hdl).len == old(hdl).len + 1,
            final(hdl).key() == old(hdl).key() || !old(self)@.contains_key(final(hdl).key()),
            final(hdl).offset == (if bucket_of(old(hdl).len + 1) == bucket_of(
                old(hdl).len as int,
            ) {
                old(hdl).offset as nat
            } else {
                old(self).next_offset(bucket_of(old(hdl).len + 1))
            }),
            old(self).usage_moved(
                *final(self),
                bucket_of(old(hdl).len as int),
                old(hdl).offset,
                bucket_of(old(hdl).len + 1),
            ),
            final(self)@ == old(self)@.remove(old(hdl).key()).insert(
                final(hdl).key(),
                old(self)@[old(hdl).key()].insert(index as int, value),
            ),
    {
        let ghost before = self@;
        let ghost key = hdl.key();
        let from: usize = choose_bucket(hdl.len);
        let to: usize = choose_bucket(hdl.len + 1);
        if from != to {
            hdl.offset = self.transfer(from, hdl.offset, to);
        }
        hdl.len = hdl.len + 1;
        let ghost moved = *self;
        let ghost middle = self@;
        assert(middle.contains_key(hdl.key()));
        assert(middle[hdl.key()] == before[key]);
        let offset: usize = hdl.offset;
        self.buckets[to].slots[offset].insert(index as usize, value);
        assert forall|b: nat| b < BUCKETS implies #[trigger] self.usage(b) == moved.usage(b) by {}
        assert(self@ =~= middle.insert(hdl.key(), before[key].insert(index as int, value)));
        assert(self@ =~= before.remove(key).insert(
            hdl.key(),
            before[key].insert(index as int, value),
        ));
    }

    /// Takes the item at `index` out of a collection; the items behind it move
    /// down. The handle changes with the length of the collection.
    pub fn remove(&mut self, hdl: &mut AllocatorHandle, index: u32) -> (r: T)
        requires
            old(self).wf(),
            old(self).holds(*old(hdl)),
            index < old(hdl).len,
        ensures
            final(self).wf(),
            r == old(self)@[old(hdl).key()][index as int],
            final(hdl).len == old(hdl).len - 1,
            final(hdl).key() == old(hdl).key() || !old(self)@.contains_key(final(hdl).key()),
            final(hdl).offset == (if bucket_of(old(hdl).len - 1) == bucket_of(
                old(hdl).len as int,
            ) {
                old(hdl).offset as nat
            } else {
                old(self).next_offset(bucket_of(old(hdl).len - 1))
            }),
            old(self).usage_moved(
                *final(self),
                bucket_of(old(hdl).len as int),
                old(hdl).offset,
                bucket_of(old(hdl).len - 1),
            ),
            final(self)@ == old(self)@.remove(old(hdl).key()).insert(
                final(hdl).key(),
                old(self)@[old(hdl).key()].remove(index as int),
            ),
    {
        let ghost before = self@;
        let ghost key = hdl.key();
        let from: usize = choose_bucket(hdl.len);
        let to: usize = choose_bucket(hdl.len - 1);
        if from != to {
            hdl.offset = self.transfer(from, hdl.offset, to);
        }
        hdl.len = hdl.len - 1;
        let ghost moved = *self;
        let ghost middle = self@;
        assert(middle.contains_key(hdl.key()));
        assert(middle[hdl.key()] == before[key]);
        let offset: usize = hdl.offset;
        let r = self.buckets[to].slots[offset].remove(index as usize);
        assert forall|b: nat| b < BUCKETS implies #[trigger] self.usage(b) == moved.usage(b) by {}
        assert(self@ =~= middle.insert(hdl.key(), before[key].remove(index as int)));
        assert(self@ =~= before.remove(key).insert(hdl.key(), before[key].remove(index as int)));
        r
    }

    /// The item at `index` of a collection.
    pub fn get(&self, hdl: &AllocatorHandle, index: u32) -> (r: &T)
        requires
            self.wf(),
            self.holds(*hdl),
            index < hdl.len,
        ensures
            *r == self@[hdl.key()][index as int],
    {
        let b: usize = choose_bucket(hdl.len);
        &self.buckets[b].slots[hdl.offset][index as usize]
    }

    /// Replaces the item at `index` of a collection.
    pub fn set(&mut self, hdl: &AllocatorHandle, index: u32, value: T)
        requires
            old(self).wf(),
            old(self).holds(*hdl),
            index < hdl.len,
        ensures
            final(self).wf(),
            old(self).same_usage(*final(self)),
            final(self)@ == old(self)@.insert(
                hdl.key(),
                old(self)@[hdl.key()].update(index as int, value),
            ),
    {
        let ghost before = self@;
        let b: usize = choose_bucket(hdl.len);
        self.buckets[b].slots[hdl.offset][index as usize] = value;
        assert(self@ =~= before.insert(hdl.key(), before[hdl.key()].update(index as int, value)));
    }

    /// Gives back buffer space that no collection uses. All collections stay where
    /// they are, and the same slots are handed out next; the contract says nothing
    /// of the space that is given back.
    pub fn shrink_to_fit(&mut self)
        requires
            old(self).wf(),
        ensures
            final(self).wf(),
            final(self)@ == old(self)@,
            old(self).same_usage(*final(self)),
    {
        let mut i: usize = 0;
        while i < BUCKETS
            invariant
                i <= BUCKETS,
                self.wf(),
                self.buckets@.len() == old(self).buckets@.len(),
                forall|b: int|
                    0 <= b < BUCKETS ==> {
                        &&& (#[trigger] self.buckets@[b]).contents() == old(
                            self,
                        ).buckets@[b].contents()
                        &&& self.buckets@[b].usage() == old(self).buckets@[b].usage()
                    },
            decreases BUCKETS - i,
        {
            shrink_vec(&mut self.buckets[i].slots);
            shrink_vec(&mut self.buckets[i].vacant);
            i = i + 1;
        }
        assert(self@ =~= old(self)@);
    }
}

/// Moves the items to a buffer with room for them and no more, as far as std's
/// allocator grants it; what capacity results is not claimed. The items stay as
/// they are.
fn shrink_vec<T>(v: &mut Vec<T>)
    ensures
        final(v)@ == old(v)@,
{
    let mut fitted: Vec<T> = Vec::with_capacity(v.len());
    fitted.append(v);
    assert(fitted@ =~= old(v)@);
    *v = fitted;
}

/// A bucket is for collections up to a power of two, and for none that would fit
/// into the bucket before.
pub proof fn law_buckets_double(len: int)
    requires
        0 <= len <= MAX_LEN,
    ensures
        bucket_of(len) < BUCKETS,
        len <= pow2(bucket_of(len)),
        bucket_of(len) > 0 ==> pow2((bucket_of(len) - 1) as nat) < len,
{
    lemma2_to64();
}

/// Handles for collections of the same length stand for the same collection only
/// if they name the same slot.
pub proof fn law_slots_tell_apart(a: AllocatorHandle, b: AllocatorHandle)
    requires
        a.len == b.len,
    ensures
        a.key() == b.key() <==> a.offset == b.offset,
{
}

/// A vacated slot is the next to be handed out, and handing it out undoes the
/// vacating. Only a bucket without vacant slots gets a new one, behind all others;
/// the first slot is slot 0.
pub proof fn law_vacated_slots_come_first(u: SlotUse, i: usize)
    ensures
        u.vacated(i).next() == i,
        u.vacated(i).taken() == u,
        u.vacated(i).count == u.count,
        u.vacant.len() == 0 ==> u.next() == u.count && u.taken().next() == u.count + 1,
        u.vacant.len() > 0 ==> u.taken().vacated(u.vacant.last()) == u && u.next()
            == u.vacant.last(),
        SlotUse::unused().next() == 0,
        SlotUse::unused().taken().next() == 1,
{
    assert(u.vacated(i).vacant.drop_last() =~= u.vacant);
    if u.vacant.len() > 0 {
        assert(u.vacant.drop_last().push(u.vacant.last()) =~= u.vacant);
    }
}

/// A collection that moves to another bucket leaves its slot to be the next that
/// is handed out there, and takes the next slot of the other bucket. No other
/// bucket changes, and none does where the collection stays in its bucket.
pub proof fn law_move_changes_two_buckets<T>(
    before: Allocator<T>,
    after: Allocator<T>,
    from: nat,
    slot: usize,
    to: nat,
    b: nat,
)
    requires
        before.usage_moved(after, from, slot, to),
        from < BUCKETS,
        to < BUCKETS,
        b < BUCKETS,
    ensures
        from != to ==> {
            &&& after.next_offset(from) == slot
            &&& after.usage(from).taken() == before.usage(from)
            &&& before.usage(to).vacant.len() == 0 ==> after.next_offset(to) == before.next_offset(
                to,
            ) + 1
            &&& before.usage(to).vacant.len() > 0 ==> after.usage(to).vacated(
                before.usage(to).vacant.last(),
            ) == before.usage(to)
        },
        from == to || b != from && b != to ==> after.usage(b) == before.usage(b)
            && after.next_offset(b) == before.next_offset(b),
{
    law_vacated_slots_come_first(before.usage(from), slot);
    law_vacated_slots_come_first(before.usage(to), slot);
}

/// Where the same slots are in use every bucket hands out the same slot next.
pub proof fn law_same_usage_same_slots<T>(before: Allocator<T>, after: Allocator<T>, b: nat)
    requires
        before.same_usage(after),
        b < BUCKETS,
    ensures
        after.usage(b).count == before.usage(b).count,
        after.usage(b).vacant == before.usage(b).vacant,
        after.next_offset(b) == before.next_offset(b),
{
    assert(after.usage(b) == before.usage(b));
}

} // verus!
