//! Writing encoded values: children first, then the header of their container before them.

use vstd::prelude::*;
use vstd::slice::slice_subrange;
use vstd::utf8::encode_utf8;

use crate::bytes::{append, be_bytes, write_u32};
use crate::error::{Error, ErrorModel};
use crate::number::Number;
use crate::order::{
    indices, key_order, lemma_key_order, lemma_rearranged_in_range, reordered, repeated_key,
};
use crate::sort::{
    as_ints, check_duplicate_keys, entry_keys, keys_at, sort_object_order, sort_small_object_order,
    EncodedValue, ObjectEntry, SMALL_OBJECT_SORT_LIMIT,
};
use crate::text::cow_bytes;
use crate::value::{
    encoded_container, encoded_empty, encoded_number, encoded_object, encoded_text, encoded_texts,
    entry_bytes, jentries, object_bytes, payload, Encoded, ARRAY_CONTAINER_TAG, CONTAINER_TAG,
    NUMBER_TAG, OBJECT_CONTAINER_TAG, STRING_TAG,
};

verus! {

/// The output under construction.
pub struct JsonbWriter {
    /// The bytes of the finished values.
    pub buf: Vec<u8>,
    /// Where a container is put together.
    pub scratch: Vec<u8>,
    /// The entries of the finished items of the arrays that are still open.
    pub jentries: Vec<u32>,
    /// The order of the members of the object that is being closed.
    pub order: Vec<usize>,
}

/// A written value with its bytes.
pub open spec fn written(buf: Seq<u8>, value: EncodedValue) -> Encoded {
    Encoded {
        jentry: value.jentry,
        bytes: buf.subrange(value.start as int, value.start + value.len),
    }
}

/// The bytes of a written value lie in the output.
pub open spec fn lies_in(buf: Seq<u8>, value: EncodedValue) -> bool {
    value.start + value.len <= buf.len()
}

/// The values of a list of members.
pub open spec fn entry_values(buf: Seq<u8>, entries: Seq<ObjectEntry<'_>>) -> Seq<Encoded> {
    entries.map_values(|e: ObjectEntry<'_>| written(buf, e.value))
}

/// The indices are those of the members, each once.
pub open spec fn covers(order: Seq<usize>, entries: Seq<ObjectEntry<'_>>) -> bool {
    as_ints(order).to_multiset() == indices(entries.len()).to_multiset()
}

/// An object was written in place of what the output held from `frame_start` on: its members are
/// the given ones in the given order, with the values that the output held.
pub open spec fn object_written(
    before: JsonbWriter,
    frame_start: usize,
    entries: Seq<ObjectEntry<'_>>,
    order: Seq<usize>,
    r: EncodedValue,
    after: JsonbWriter,
) -> bool {
    let object = encoded_container(
        object_bytes(
            reordered(encoded_texts(entry_keys(entries)), as_ints(order)),
            reordered(entry_values(before.buf@, entries), as_ints(order)),
        ),
    );
    &&& after.buf@ == before.buf@.take(frame_start as int) + object.bytes
    &&& after.jentries@ == before.jentries@
    &&& after.order@ == before.order@
    &&& r.start == frame_start
    &&& r.len == object.bytes.len()
    &&& r.jentry == object.jentry
}

/// An object is written the same, whether its order is handed over or is the one kept from before,
/// and that one stays as it was.
pub proof fn law_both_ways_to_write_an_object_agree(
    before_a: JsonbWriter,
    before_b: JsonbWriter,
    frame_start: usize,
    entries: Seq<ObjectEntry<'_>>,
    a: EncodedValue,
    b: EncodedValue,
    after_a: JsonbWriter,
    after_b: JsonbWriter,
)
    requires
        before_a.buf@ == before_b.buf@,
        before_a.jentries@ == before_b.jentries@,
        object_written(before_a, frame_start, entries, before_a.order@, a, after_a),
        object_written(before_b, frame_start, entries, before_a.order@, b, after_b),
    ensures
        a == b,
        after_a.buf@ == after_b.buf@,
        after_a.jentries@ == before_a.jentries@,
        after_b.jentries@ == before_a.jentries@,
        after_a.order@ == before_a.order@,
{
}

/// The order of the keys is made of indices.
proof fn lemma_in_range(order: Seq<usize>, entries: Seq<ObjectEntry<'_>>)
    requires
        as_ints(order) == key_order(entry_keys(entries)),
    ensures
        forall|i: int| 0 <= i < order.len() ==> #[trigger] order[i] < entries.len(),
{
    lemma_key_order(entry_keys(entries));
    assert(as_ints(order).len() == order.len());
    assert forall|i: int| 0 <= i < order.len() implies #[trigger] order[i] < entries.len() by {
        assert(as_ints(order)[i] == order[i]);
        assert(0 <= key_order(entry_keys(entries))[i] < entry_keys(entries).len());
    }
}

proof fn lemma_entry_bytes_step(entries: Seq<u32>, i: int)
    requires
        0 <= i < entries.len(),
    ensures
        entry_bytes(entries.take(i + 1)) == entry_bytes(entries.take(i)) + be_bytes(
            entries[i] as nat,
            4,
        ),
{
    assert(entries.take(i + 1).drop_last() =~= entries.take(i));
}

proof fn lemma_payload_step(items: Seq<Encoded>, i: int)
    requires
        0 <= i < items.len(),
    ensures
        payload(items.take(i + 1)) == payload(items.take(i)) + items[i].bytes,
{
    assert(items.take(i + 1).drop_last() =~= items.take(i));
}

impl JsonbWriter {
    /// An empty output. The capacity is the number of bytes to make room for.
    pub fn with_capacity(capacity: usize) -> (w: JsonbWriter)
        ensures
            w.buf@ == Seq::<u8>::empty(),
            w.scratch@ == Seq::<u8>::empty(),
            w.jentries@ == Seq::<u32>::empty(),
            w.order@ == Seq::<usize>::empty(),
    {
        let scratch_capacity: usize = if capacity < 4096 {
            capacity
        } else {
            4096
        };
        JsonbWriter {
            buf: Vec::with_capacity(capacity),
            scratch: Vec::with_capacity(scratch_capacity),
            jentries: Vec::with_capacity(32),
            order: Vec::with_capacity(32),
        }
    }

    /// The bytes of a written value.
    pub fn value_bytes(&self, value: EncodedValue) -> (bytes: &[u8])
        requires
            lies_in(self.buf@, value),
        ensures
            bytes@ == written(self.buf@, value).bytes,
    {
        let bytes = self.buf.as_slice();
        assert(value.start + value.len <= bytes.len());
        slice_subrange(bytes, value.start, value.start + value.len)
    }

    /// A value that has no bytes.
    pub fn empty_value(&self, jentry: u32) -> (value: EncodedValue)
        ensures
            value.start == self.buf@.len(),
            value.len == 0,
            value.jentry == encoded_empty(jentry).jentry,
    {
        EncodedValue { jentry, start: self.buf.len(), len: 0 }
    }

    /// Writes a string.
    pub fn append_string(&mut self, value: &[u8]) -> (r: EncodedValue)
        ensures
            final(self).buf@ == old(self).buf@ + encoded_text(value@).bytes,
            final(self).jentries@ == old(self).jentries@,
            r.start == old(self).buf@.len(),
            r.len == encoded_text(value@).bytes.len(),
            r.jentry == encoded_text(value@).jentry,
    {
        let start: usize = self.buf.len();
        append(&mut self.buf, value);
        EncodedValue { jentry: STRING_TAG | (value.len() as u32), start, len: value.len() }
    }

    /// Writes a number.
    pub fn append_number(&mut self, num: Number) -> (r: EncodedValue)
        ensures
            final(self).buf@ == old(self).buf@ + encoded_number(num).bytes,
            final(self).jentries@ == old(self).jentries@,
            r.start == old(self).buf@.len(),
            r.len == encoded_number(num).bytes.len(),
            r.jentry == encoded_number(num).jentry,
    {
        let start: usize = self.buf.len();
        let len: usize = num.compact_encode(&mut self.buf);
        EncodedValue { jentry: NUMBER_TAG | (len as u32), start, len }
    }

    /// Replaces what the output holds from `frame_start` on by the container in `scratch`.
    fn close_frame(&mut self, frame_start: usize) -> (r: EncodedValue)
        requires
            frame_start <= old(self).buf@.len(),
        ensures
            final(self).buf@ == old(self).buf@.take(frame_start as int) + old(self).scratch@,
            final(self).jentries@ == old(self).jentries@,
            final(self).order@ == old(self).order@,
            r.start == frame_start,
            r.len == old(self).scratch@.len(),
            r.jentry == encoded_container(old(self).scratch@).jentry,
    {
        let payload_len: usize = self.scratch.len();
        self.buf.truncate(frame_start);
        append(&mut self.buf, self.scratch.as_slice());
        assert(self.buf@ =~= old(self).buf@.take(frame_start as int) + old(self).scratch@);
        EncodedValue {
            jentry: CONTAINER_TAG | (payload_len as u32),
            start: frame_start,
            len: payload_len,
        }
    }

    /// Makes the items written since `frame_start` an array; their entries are those from
    /// `jentry_start` on.
    pub fn close_array(&mut self, frame_start: usize, jentry_start: usize) -> (r: EncodedValue)
        requires
            frame_start <= old(self).buf@.len(),
            jentry_start <= old(self).jentries@.len(),
        ensures
            ({
                let entries = old(self).jentries@.skip(jentry_start as int);
                let bytes = be_bytes((ARRAY_CONTAINER_TAG | (entries.len() as u32)) as nat, 4)
                    + entry_bytes(entries) + old(self).buf@.skip(frame_start as int);
                &&& final(self).buf@ == old(self).buf@.take(frame_start as int) + bytes
                &&& r.len == bytes.len()
                &&& r.jentry == encoded_container(bytes).jentry
            }),
            final(self).jentries@ == old(self).jentries@.take(jentry_start as int),
            r.start == frame_start,
    {
        let len: usize = self.jentries.len() - jentry_start;
        let ghost entries = self.jentries@.skip(jentry_start as int);
        let ghost head = be_bytes((ARRAY_CONTAINER_TAG | (len as u32)) as nat, 4);
        self.scratch.clear();
        write_u32(&mut self.scratch, ARRAY_CONTAINER_TAG | (len as u32));
        assert(self.scratch@ =~= head + entry_bytes(entries.take(0)));
        let mut i: usize = jentry_start;
        while i < self.jentries.len()
            invariant
                jentry_start <= i <= self.jentries@.len(),
                self.jentries@ == old(self).jentries@,
                self.buf@ == old(self).buf@,
                entries == self.jentries@.skip(jentry_start as int),
                self.scratch@ == head + entry_bytes(entries.take(i - jentry_start)),
            decreases self.jentries@.len() - i,
        {
            proof {
                lemma_entry_bytes_step(entries, i - jentry_start);
            }
            write_u32(&mut self.scratch, self.jentries[i]);
            assert(self.scratch@ =~= head + entry_bytes(entries.take(i + 1 - jentry_start)));
            i += 1;
        }
        assert(entries.take(len as int) =~= entries);
        append(
            &mut self.scratch,
            slice_subrange(self.buf.as_slice(), frame_start, self.buf.len()),
        );
        self.jentries.truncate(jentry_start);
        assert(self.scratch@ =~= head + entry_bytes(entries) + old(self).buf@.skip(
            frame_start as int,
        ));
        assert(self.jentries@ =~= old(self).jentries@.take(jentry_start as int));
        self.close_frame(frame_start)
    }

    /// Makes the values written since `frame_start` an object with the given members, unless two
    /// of them have the same key.
    pub fn close_object(&mut self, frame_start: usize, entries: &[ObjectEntry<'_>]) -> (r: Result<
        EncodedValue,
        Error,
    >)
        requires
            frame_start <= old(self).buf@.len(),
            forall|i: int|
                0 <= i < entries@.len() ==> lies_in(old(self).buf@, #[trigger] entries@[i].value),
        ensures
            match repeated_key(entry_keys(entries@)) {
                Some(i) => r matches Err(e) && e@ == ErrorModel::DuplicateKey(
                    entries@[i].key@,
                    entries@[i].pos as int,
                ) && final(self).buf@ == old(self).buf@,
                None => r matches Ok(v) && ({
                    let object = encoded_object(
                        entry_keys(entries@),
                        entry_values(old(self).buf@, entries@),
                    );
                    &&& final(self).buf@ == old(self).buf@.take(frame_start as int) + object.bytes
                    &&& v.start == frame_start
                    &&& v.len == object.bytes.len()
                    &&& v.jentry == object.jentry
                }),
            },
            final(self).jentries@ == old(self).jentries@,
    {
        let ghost keys = entry_keys(entries@);
        proof {
            lemma_key_order(keys);
        }
        if entries.len() <= SMALL_OBJECT_SORT_LIMIT {
            let mut order: Vec<usize> = Vec::with_capacity(entries.len());
            let mut idx: usize = 0;
            while idx < entries.len()
                invariant
                    idx <= entries@.len(),
                    as_ints(order@) == indices(idx as nat),
                decreases entries@.len() - idx,
            {
                let ghost before = as_ints(order@);
                order.push(idx);
                assert(as_ints(order@) =~= before.push(idx as int));
                idx += 1;
                assert(as_ints(order@) =~= indices(idx as nat));
            }
            let ghost given = order@;
            proof {
                assert(as_ints(given).len() == given.len());
                assert forall|i: int| 0 <= i < given.len() implies #[trigger] given[i] == i by {
                    assert(as_ints(given)[i] == indices(entries@.len())[i]);
                }
            }
            sort_small_object_order(entries, &mut order);
            proof {
                assert(keys_at(entries@, given) =~= keys);
                assert(as_ints(order@) =~= key_order(keys));
            }
            proof {
                lemma_in_range(order@, entries@);
            }
            match check_duplicate_keys(entries, &order) {
                Ok(()) => {},
                Err(e) => {
                    return Err(e);
                },
            }
            return Ok(self.write_object_with_order(frame_start, entries, &order));
        }
        self.order = sort_object_order(entries);
        proof {
            lemma_in_range(self.order@, entries@);
        }
        match check_duplicate_keys(entries, &self.order) {
            Ok(()) => {},
            Err(e) => {
                return Err(e);
            },
        }
        Ok(self.write_object_with_reused_order(frame_start, entries))
    }

    /// Writes an object with its members in the given order.
    fn write_object_with_order(
        &mut self,
        frame_start: usize,
        entries: &[ObjectEntry<'_>],
        order: &Vec<usize>,
    ) -> (r: EncodedValue)
        requires
            frame_start <= old(self).buf@.len(),
            forall|i: int|
                0 <= i < entries@.len() ==> lies_in(old(self).buf@, #[trigger] entries@[i].value),
            covers(order@, entries@),
        ensures
            object_written(*old(self), frame_start, entries@, order@, r, *final(self)),
    {
        let ghost ints = as_ints(order@);
        let ghost keys = reordered(encoded_texts(entry_keys(entries@)), ints);
        let ghost values = reordered(entry_values(self.buf@, entries@), ints);
        let ghost key_jentries = keys.map_values(|e: Encoded| e.jentry);
        let ghost value_jentries = values.map_values(|e: Encoded| e.jentry);
        proof {
            lemma_rearranged_in_range(ints, entries@.len());
            assert(ints.len() == order@.len());
            assert forall|i: int| 0 <= i < order@.len() implies #[trigger] order@[i]
                < entries@.len() by {
                assert(ints[i] == order@[i]);
            }
            assert forall|i: int| 0 <= i < order@.len() implies #[trigger] keys[i] == encoded_text(
                encode_utf8(entries@[order@[i] as int].key@),
            ) by {
                assert(ints[i] == order@[i]);
            }
            assert forall|i: int| 0 <= i < order@.len() implies #[trigger] values[i] == written(
                self.buf@,
                entries@[order@[i] as int].value,
            ) by {
                assert(ints[i] == order@[i]);
            }
        }
        let ghost head = be_bytes((OBJECT_CONTAINER_TAG | (keys.len() as u32)) as nat, 4);
        self.scratch.clear();
        write_u32(&mut self.scratch, OBJECT_CONTAINER_TAG | (entries.len() as u32));
        assert(self.scratch@ =~= head + entry_bytes(key_jentries.take(0)));
        let mut i: usize = 0;
        while i < order.len()
            invariant
                i <= order@.len(),
                self.jentries@ == old(self).jentries@,
                self.order@ == old(self).order@,
                self.buf@ == old(self).buf@,
                forall|i: int| 0 <= i < order@.len() ==> #[trigger] order@[i] < entries@.len(),
                key_jentries == keys.map_values(|e: Encoded| e.jentry),
                keys.len() == order@.len(),
                forall|i: int|
                    0 <= i < order@.len() ==> #[trigger] keys[i] == encoded_text(
                        encode_utf8(entries@[order@[i] as int].key@),
                    ),
                self.scratch@ == head + entry_bytes(key_jentries.take(i as int)),
            decreases order@.len() - i,
        {
            proof {
                lemma_entry_bytes_step(key_jentries, i as int);
                assert(key_jentries[i as int] == keys[i as int].jentry);
            }
            let len: usize = cow_bytes(&entries[order[i]].key).len();
            write_u32(&mut self.scratch, STRING_TAG | (len as u32));
            assert(self.scratch@ =~= head + entry_bytes(key_jentries.take(i + 1)));
            i += 1;
        }
        let ghost head = self.scratch@;
        assert(key_jentries.take(i as int) =~= key_jentries);
        assert(self.scratch@ =~= head + entry_bytes(value_jentries.take(0)));
        let mut i: usize = 0;
        while i < order.len()
            invariant
                i <= order@.len(),
                self.jentries@ == old(self).jentries@,
                self.order@ == old(self).order@,
                self.buf@ == old(self).buf@,
                forall|i: int| 0 <= i < order@.len() ==> #[trigger] order@[i] < entries@.len(),
                value_jentries == values.map_values(|e: Encoded| e.jentry),
                values.len() == order@.len(),
                forall|i: int|
                    0 <= i < order@.len() ==> #[trigger] values[i] == written(
                        old(self).buf@,
                        entries@[order@[i] as int].value,
                    ),
                self.scratch@ == head + entry_bytes(value_jentries.take(i as int)),
            decreases order@.len() - i,
        {
            proof {
                lemma_entry_bytes_step(value_jentries, i as int);
                assert(value_jentries[i as int] == values[i as int].jentry);
            }
            write_u32(&mut self.scratch, entries[order[i]].value.jentry);
            assert(self.scratch@ =~= head + entry_bytes(value_jentries.take(i + 1)));
            i += 1;
        }
        let ghost head = self.scratch@;
        assert(value_jentries.take(i as int) =~= value_jentries);
        assert(self.scratch@ =~= head + payload(keys.take(0)));
        let mut i: usize = 0;
        while i < order.len()
            invariant
                i <= order@.len(),
                self.jentries@ == old(self).jentries@,
                self.order@ == old(self).order@,
                self.buf@ == old(self).buf@,
                forall|i: int| 0 <= i < order@.len() ==> #[trigger] order@[i] < entries@.len(),
                keys.len() == order@.len(),
                forall|i: int|
                    0 <= i < order@.len() ==> #[trigger] keys[i] == encoded_text(
                        encode_utf8(entries@[order@[i] as int].key@),
                    ),
                self.scratch@ == head + payload(keys.take(i as int)),
            decreases order@.len() - i,
        {
            proof {
                lemma_payload_step(keys, i as int);
            }
            append(&mut self.scratch, cow_bytes(&entries[order[i]].key));
            assert(self.scratch@ =~= head + payload(keys.take(i + 1)));
            i += 1;
        }
        let ghost head = self.scratch@;
        assert(keys.take(i as int) =~= keys);
        assert(self.scratch@ =~= head + payload(values.take(0)));
        let mut i: usize = 0;
        while i < order.len()
            invariant
                i <= order@.len(),
                self.jentries@ == old(self).jentries@,
                self.order@ == old(self).order@,
                self.buf@ == old(self).buf@,
                forall|i: int| 0 <= i < order@.len() ==> #[trigger] order@[i] < entries@.len(),
                forall|i: int|
                    0 <= i < entries@.len() ==> lies_in(
                        old(self).buf@,
                        #[trigger] entries@[i].value,
                    ),
                values.len() == order@.len(),
                forall|i: int|
                    0 <= i < order@.len() ==> #[trigger] values[i] == written(
                        old(self).buf@,
                        entries@[order@[i] as int].value,
                    ),
                self.scratch@ == head + payload(values.take(i as int)),
            decreases order@.len() - i,
        {
            proof {
                lemma_payload_step(values, i as int);
            }
            let value = entries[order[i]].value;
            let bytes = self.buf.as_slice();
            assert(value.start + value.len <= bytes.len());
            append(
                &mut self.scratch,
                slice_subrange(bytes, value.start, value.start + value.len),
            );
            assert(self.scratch@ =~= head + payload(values.take(i + 1)));
            i += 1;
        }
        assert(values.take(i as int) =~= values);
        assert(self.scratch@ == object_bytes(keys, values));
        self.close_frame(frame_start)
    }

    /// Writes an object with its members in the order that was computed last.
    fn write_object_with_reused_order(
        &mut self,
        frame_start: usize,
        entries: &[ObjectEntry<'_>],
    ) -> (r: EncodedValue)
        requires
            frame_start <= old(self).buf@.len(),
            forall|i: int|
                0 <= i < entries@.len() ==> lies_in(old(self).buf@, #[trigger] entries@[i].value),
            covers(old(self).order@, entries@),
        ensures
            object_written(*old(self), frame_start, entries@, old(self).order@, r, *final(self)),
    {
        let mut order: Vec<usize> = Vec::new();
        std::mem::swap(&mut order, &mut self.order);
        let r = self.write_object_with_order(frame_start, entries, &order);
        self.order = order;
        r
    }
}

} // verus!
