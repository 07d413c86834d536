//! The row store: a byte arena of fixed-size slots, filled in order.
use vstd::prelude::*;
use vstd::slice::slice_subrange;
use crate::error::Error;
use crate::record::{
    Record, RecordView, ROW_SIZE, encode, decode, decode_spec, exact_record, stored,
    lemma_round_trip,
};

verus! {

/// `i * ROW_SIZE + ROW_SIZE` stays within `n * ROW_SIZE` for every slot
/// index `i` below `n`.
proof fn lemma_slot_within(i: int, n: int)
    requires
        0 <= i < n,
    ensures
        i * ROW_SIZE + ROW_SIZE <= n * ROW_SIZE,
{
    assert(i * 72 + 72 <= n * 72) by (nonlinear_arith)
        requires 0 <= i < n;
}

/// A store of records in a fixed number of slots, allocated once.
pub struct Table {
    len: usize,
    capacity: usize,
    memory: Vec<u8>,
}

impl Table {
    /// The arena has exactly `capacity` slots, and at most all are occupied.
    pub closed spec fn wf(&self) -> bool {
        &&& self.len <= self.capacity
        &&& self.memory@.len() == self.capacity * ROW_SIZE
        &&& self.capacity * ROW_SIZE <= usize::MAX
    }

    /// The number of slots.
    pub closed spec fn spec_capacity(&self) -> nat {
        self.capacity as nat
    }

    /// The bytes of slot `i`.
    closed spec fn slot(&self, i: int) -> Seq<u8> {
        self.memory@.subrange(i * ROW_SIZE, i * ROW_SIZE + ROW_SIZE)
    }

    /// The records held, in the order they were appended: the decoded
    /// contents of the occupied slots.
    pub closed spec fn records(&self) -> Seq<RecordView> {
        Seq::new(self.len as nat, |i: int| decode_spec(self.slot(i)))
    }

    /// A well-formed store never holds more records than it has slots.
    pub proof fn lemma_count_bounded(&self)
        requires
            self.wf(),
        ensures
            self.records().len() <= self.spec_capacity(),
    {
    }

    /// An empty store with room for `capacity` records.
    pub fn new(capacity: usize) -> (t: Table)
        requires
            capacity * ROW_SIZE <= usize::MAX,
        ensures
            t.wf(),
            t.records() == Seq::<RecordView>::empty(),
            t.spec_capacity() == capacity,
    {
        let t = Table { len: 0, capacity, memory: vec![0u8; capacity * ROW_SIZE] };
        assert(t.records() =~= Seq::<RecordView>::empty());
        t
    }

    /// The number of records held.
    pub fn len(&self) -> (n: usize)
        requires
            self.wf(),
        ensures
            n == self.records().len(),
    {
        self.len
    }

    /// The number of slots.
    pub fn capacity(&self) -> (n: usize)
        ensures
            n == self.spec_capacity(),
    {
        self.capacity
    }

    /// Appends `row` in the next free slot. Fails with `StoreFull`, leaving
    /// the store unchanged, when every slot is occupied. The record held
    /// afterwards is `row` as its slot encodes it.
    pub fn insert(&mut self, row: &Record) -> (r: Result<(), Error>)
        requires
            old(self).wf(),
        ensures
            final(self).wf(),
            final(self).spec_capacity() == old(self).spec_capacity(),
            old(self).records().len() == old(self).spec_capacity() ==> r == Err::<(), Error>(Error::StoreFull)
                && final(self).records() == old(self).records(),
            old(self).records().len() != old(self).spec_capacity() ==> r == Ok::<(), Error>(())
                && final(self).records() == old(self).records().push(stored(row@)),
    {
        if self.len == self.capacity {
            return Err(Error::StoreFull);
        }
        let bytes = encode(row);
        proof {
            lemma_slot_within(self.len as int, self.capacity as int);
        }
        assert(self.len * ROW_SIZE + ROW_SIZE <= self.capacity * ROW_SIZE);
        let offset: usize = self.len * ROW_SIZE;
        let ghost old_mem = self.memory@;
        let ghost old_records = self.records();
        let mut j: usize = 0;
        while j < ROW_SIZE
            invariant
                self.len < self.capacity,
                self.len == old(self).len,
                self.capacity == old(self).capacity,
                old_mem == old(self).memory@,
                offset == self.len * ROW_SIZE,
                offset + ROW_SIZE <= self.capacity * ROW_SIZE,
                self.capacity * ROW_SIZE <= usize::MAX,
                old_mem.len() == self.capacity * ROW_SIZE,
                bytes@.len() == ROW_SIZE,
                j <= ROW_SIZE,
                self.memory@.len() == old_mem.len(),
                forall|k: int| 0 <= k < offset ==> self.memory@[k] == old_mem[k],
                forall|k: int| 0 <= k < j ==> self.memory@[offset + k] == bytes@[k],
            decreases ROW_SIZE - j,
        {
            self.memory.set(offset + j, bytes[j]);
            j = j + 1;
        }
        proof {
            assert forall|i: int| 0 <= i < self.len implies #[trigger] self.slot(i) == old(self).slot(i) by {
                lemma_slot_within(i, self.len as int);
                assert(self.slot(i) =~= old(self).slot(i));
            }
            assert(self.slot(self.len as int) =~= bytes@);
        }
        self.len = self.len + 1;
        assert(forall|i: int| 0 <= i < old_records.len() ==> #[trigger] self.slot(i) == old(self).slot(i));
        assert(self.records() =~= old_records.push(stored(row@)));
        Ok(())
    }

    /// All records held, in the order they were appended.
    pub fn select(&self) -> (r: Result<Vec<Record>, Error>)
        requires
            self.wf(),
        ensures
            r is Ok,
            r->Ok_0@.len() == self.records().len(),
            forall|i: int| 0 <= i < self.records().len() ==> #[trigger] r->Ok_0@[i]@ == self.records()[i],
    {
        let mut rows: Vec<Record> = Vec::new();
        let mut i: usize = 0;
        while i < self.len
            invariant
                self.wf(),
                i <= self.len,
                rows@.len() == i,
                forall|k: int| 0 <= k < i ==> #[trigger] rows@[k]@ == self.records()[k],
            decreases self.len - i,
        {
            proof {
                lemma_slot_within(i as int, self.capacity as int);
            }
            let offset: usize = i * ROW_SIZE;
            let bytes = slice_subrange(self.memory.as_slice(), offset, offset + ROW_SIZE);
            let record = decode(bytes);
            rows.push(record);
            i = i + 1;
        }
        Ok(rows)
    }
}

/// The contents of a store that held `start` after `rs` is appended to it
/// in order, one successful `insert` per record.
pub open spec fn log_after(start: Seq<RecordView>, rs: Seq<RecordView>) -> Seq<RecordView>
    decreases rs.len(),
{
    if rs.len() == 0 {
        start
    } else {
        log_after(start, rs.drop_last()).push(stored(rs.last()))
    }
}

/// Each successful append adds exactly one record: after `rs` is appended,
/// the store holds `rs.len()` more records than before, and the earlier ones
/// are kept in place.
pub proof fn lemma_count_after_appends(start: Seq<RecordView>, rs: Seq<RecordView>)
    ensures
        log_after(start, rs).len() == start.len() + rs.len(),
        log_after(start, rs).take(start.len() as int) == start,
    decreases rs.len(),
{
    if rs.len() > 0 {
        lemma_count_after_appends(start, rs.drop_last());
        assert(log_after(start, rs).take(start.len() as int) =~= log_after(start, rs.drop_last()).take(
            start.len() as int,
        ));
    } else {
        assert(start.take(start.len() as int) =~= start);
    }
}

/// Records appended in order to an empty store are enumerated in that same
/// order, each unchanged, when their fields fit their width and hold no zero
/// byte.
pub proof fn lemma_order_preserved(rs: Seq<RecordView>)
    requires
        forall|i: int| 0 <= i < rs.len() ==> exact_record(#[trigger] rs[i]),
    ensures
        log_after(Seq::empty(), rs) == rs,
    decreases rs.len(),
{
    if rs.len() > 0 {
        let front = rs.drop_last();
        assert forall|i: int| 0 <= i < front.len() implies exact_record(#[trigger] front[i]) by {
            assert(front[i] == rs[i]);
        }
        lemma_order_preserved(front);
        lemma_round_trip(rs.last());
        assert(front.push(rs.last()) =~= rs);
    }
}

} // verus!
