//! Records and batches of records.

use vstd::prelude::*;
use std::collections::HashMap;
use crate::id::{bytes_lt, key_of, lemma_key_order, u128_to_key};

verus! {

/// One captured log event.
#[derive(Clone, Debug)]
pub struct LogData {
    pub message: String,
    pub code_module: Option<String>,
    pub code_line: Option<u32>,
    pub code_file: Option<String>,
    pub tags: HashMap<String, String>,
}

/// The identifiers rise strictly along the sequence.
pub open spec fn ids_rise(s: Seq<(u128, LogData)>) -> bool {
    forall|i: int, j: int| 0 <= i < j < s.len() ==> s[i].0 < s[j].0
}

/// The number of entries at the head of `s` whose identifier is below `id`.
pub open spec fn lower_count(s: Seq<(u128, LogData)>, id: u128) -> int
    decreases s.len(),
{
    if s.len() == 0 || s[0].0 >= id {
        0
    } else {
        1 + lower_count(s.drop_first(), id)
    }
}

/// The entries after `data` is put under `id`: in the place that the order
/// of the identifiers gives it, instead of what stood under `id` before.
pub open spec fn batch_insert(s: Seq<(u128, LogData)>, id: u128, data: LogData) -> Seq<
    (u128, LogData),
> {
    let p = lower_count(s, id);
    if p < s.len() && s[p].0 == id {
        s.update(p, (id, data))
    } else {
        s.insert(p, (id, data))
    }
}

/// The count of lower entries is a place in the sequence; in a rising
/// sequence every entry before it is lower and every entry from it on is not.
pub proof fn lemma_lower_count(s: Seq<(u128, LogData)>, id: u128)
    ensures
        0 <= lower_count(s, id) <= s.len(),
        forall|i: int| 0 <= i < lower_count(s, id) ==> s[i].0 < id,
        lower_count(s, id) < s.len() ==> s[lower_count(s, id)].0 >= id,
    decreases s.len(),
{
    if s.len() == 0 || s[0].0 >= id {
    } else {
        let t = s.drop_first();
        lemma_lower_count(t, id);
        assert forall|i: int| 0 <= i < lower_count(s, id) implies s[i].0 < id by {
            if i > 0 {
                assert(s[i] == t[i - 1]);
            }
        }
    }
}

/// Putting an entry into a rising sequence leaves it rising, and adds at
/// most one entry.
pub proof fn lemma_batch_insert(s: Seq<(u128, LogData)>, id: u128, data: LogData)
    requires
        ids_rise(s),
    ensures
        ids_rise(batch_insert(s, id, data)),
        s.len() <= batch_insert(s, id, data).len() <= s.len() + 1,
        batch_insert(s, id, data).len() > 0,
{
    lemma_lower_count(s, id);
    let p = lower_count(s, id);
    let r = batch_insert(s, id, data);
    assert forall|i: int, j: int| 0 <= i < j < r.len() implies r[i].0 < r[j].0 by {
        if p < s.len() && s[p].0 == id {
            assert(s[i].0 < s[j].0);
        } else {
            let a = if i < p {
                i
            } else {
                i - 1
            };
            let b = if j < p {
                j
            } else {
                j - 1
            };
            if i != p && j != p {
                assert(s[a].0 < s[b].0);
            } else if i == p {
                assert(s[b].0 >= id) by {
                    if b > p {
                        assert(s[p].0 < s[b].0);
                    }
                }
            }
        }
    }
}

/// A record stands under the identifier.
pub open spec fn has_id(s: Seq<(u128, LogData)>, id: u128) -> bool {
    exists|i: int| 0 <= i < s.len() && (#[trigger] s[i]).0 == id
}

/// What a partition holds after the records of a batch were put into it one
/// by one.
pub open spec fn absorb(part: Seq<(u128, LogData)>, batch: Seq<(u128, LogData)>) -> Seq<
    (u128, LogData),
>
    decreases batch.len(),
{
    if batch.len() == 0 {
        part
    } else {
        absorb(batch_insert(part, batch[0].0, batch[0].1), batch.drop_first())
    }
}

/// After a record is put under an identifier, that identifier is held and
/// every other one is held as before; a new identifier adds one entry.
pub proof fn lemma_insert_ids(s: Seq<(u128, LogData)>, id: u128, data: LogData)
    requires
        ids_rise(s),
    ensures
        forall|x: u128| has_id(batch_insert(s, id, data), x) <==> x == id || has_id(s, x),
        !has_id(s, id) ==> batch_insert(s, id, data).len() == s.len() + 1,
{
    lemma_lower_count(s, id);
    let p = lower_count(s, id);
    let r = batch_insert(s, id, data);
    let replaced = p < s.len() && s[p].0 == id;
    assert forall|x: u128| has_id(r, x) <==> x == id || has_id(s, x) by {
        if has_id(r, x) {
            let i = choose|i: int| 0 <= i < r.len() && (#[trigger] r[i]).0 == x;
            if i != p {
                let k = if replaced || i < p {
                    i
                } else {
                    i - 1
                };
                assert(s[k].0 == x);
            }
        }
        if x == id {
            assert(r[p].0 == id);
        } else if has_id(s, x) {
            let k = choose|k: int| 0 <= k < s.len() && (#[trigger] s[k]).0 == x;
            let i = if replaced || k < p {
                k
            } else {
                k + 1
            };
            assert(r[i].0 == x);
        }
    }
    if replaced {
        assert(s[p].0 == id);
    }
}

/// A batch whose identifiers are all new to a partition adds one entry for
/// each of its records, and leaves the identifiers of the partition rising.
pub proof fn lemma_absorb(part: Seq<(u128, LogData)>, batch: Seq<(u128, LogData)>)
    requires
        ids_rise(part),
        ids_rise(batch),
        forall|i: int| 0 <= i < batch.len() ==> !has_id(part, (#[trigger] batch[i]).0),
    ensures
        ids_rise(absorb(part, batch)),
        absorb(part, batch).len() == part.len() + batch.len(),
    decreases batch.len(),
{
    if batch.len() > 0 {
        let next = batch_insert(part, batch[0].0, batch[0].1);
        let rest = batch.drop_first();
        lemma_batch_insert(part, batch[0].0, batch[0].1);
        lemma_insert_ids(part, batch[0].0, batch[0].1);
        assert forall|i: int, j: int| 0 <= i < j < rest.len() implies rest[i].0 < rest[j].0 by {
            assert(batch[i + 1].0 < batch[j + 1].0);
        }
        assert forall|i: int| 0 <= i < rest.len() implies !has_id(next, (#[trigger] rest[i]).0) by {
            assert(rest[i] == batch[i + 1]);
            assert(batch[0].0 < batch[i + 1].0);
            assert(!has_id(part, batch[i + 1].0));
        }
        lemma_absorb(next, rest);
    }
}

/// A partition holds an identifier after a batch was put into it if and only
/// if it held it before or the batch holds it.
pub proof fn lemma_absorb_ids(part: Seq<(u128, LogData)>, batch: Seq<(u128, LogData)>, id: u128)
    requires
        ids_rise(part),
    ensures
        has_id(absorb(part, batch), id) <==> has_id(part, id) || has_id(batch, id),
    decreases batch.len(),
{
    if batch.len() > 0 {
        let next = batch_insert(part, batch[0].0, batch[0].1);
        let rest = batch.drop_first();
        lemma_batch_insert(part, batch[0].0, batch[0].1);
        lemma_insert_ids(part, batch[0].0, batch[0].1);
        lemma_absorb_ids(next, rest, id);
        if has_id(batch, id) {
            let i = choose|i: int| 0 <= i < batch.len() && (#[trigger] batch[i]).0 == id;
            if i > 0 {
                assert(rest[i - 1].0 == id);
            }
        }
        if has_id(rest, id) {
            let j = choose|j: int| 0 <= j < rest.len() && (#[trigger] rest[j]).0 == id;
            assert(batch[j + 1].0 == id);
        }
        assert(batch[0].0 == id ==> has_id(batch, id));
    }
}

/// Records under their identifiers, in the order of the identifiers.
#[derive(Clone, Debug)]
pub struct LogBatch {
    entries: Vec<(u128, LogData)>,
}

impl View for LogBatch {
    type V = Seq<(u128, LogData)>;

    closed spec fn view(&self) -> Seq<(u128, LogData)> {
        self.entries@
    }
}

impl LogBatch {
    /// The batch is well formed: its identifiers rise strictly, so that none
    /// occurs twice.
    pub open spec fn wf(&self) -> bool {
        ids_rise(self@)
    }

    /// The empty batch.
    pub fn new() -> (r: LogBatch)
        ensures
            r@.len() == 0,
            r.wf(),
    {
        LogBatch { entries: Vec::new() }
    }

    /// The number of records.
    pub fn len(&self) -> (r: usize)
        ensures
            r == self@.len(),
    {
        self.entries.len()
    }

    /// Tells whether the batch holds no record.
    pub fn is_empty(&self) -> (r: bool)
        ensures
            r == (self@.len() == 0),
    {
        self.entries.len() == 0
    }

    /// The least identifier, which is the oldest.
    pub fn first_id(&self) -> (r: Option<u128>)
        ensures
            self@.len() == 0 ==> r is None,
            self@.len() > 0 ==> r == Some(self@[0].0),
    {
        if self.entries.len() == 0 {
            None
        } else {
            Some(self.entries[0].0)
        }
    }

    /// The records with their identifiers, in rising order of the identifiers.
    pub fn entries(&self) -> (r: &Vec<(u128, LogData)>)
        ensures
            r@ == self@,
    {
        &self.entries
    }

    /// Hands out the records with their identifiers, in rising order of the
    /// identifiers.
    pub fn into_entries(self) -> (r: Vec<(u128, LogData)>)
        ensures
            r@ == self@,
    {
        self.entries
    }

    /// Puts a record under an identifier, in place of what stood there.
    pub fn insert(&mut self, id: u128, data: LogData)
        requires
            old(self).wf(),
        ensures
            final(self)@ == batch_insert(old(self)@, id, data),
            final(self).wf(),
            final(self)@.len() > 0,
    {
        proof {
            lemma_batch_insert(self.entries@, id, data);
            lemma_lower_count(self.entries@, id);
        }
        let n = self.entries.len();
        let mut i: usize = 0;
        assert(self.entries@.subrange(0, n as int) =~= self.entries@);
        while i < n && self.entries[i].0 < id
            invariant
                i <= n,
                n == self.entries@.len(),
                lower_count(self.entries@, id) == i + lower_count(
                    self.entries@.subrange(i as int, n as int),
                    id,
                ),
            decreases n - i,
        {
            proof {
                let rest = self.entries@.subrange(i as int, n as int);
                assert(rest.drop_first() =~= self.entries@.subrange(i + 1, n as int));
            }
            i = i + 1;
        }
        if i < n && self.entries[i].0 == id {
            self.entries.set(i, (id, data));
        } else {
            self.entries.insert(i, (id, data));
        }
    }
}

/// The same items in the opposite order.
pub fn reversed<T>(v: Vec<T>) -> (r: Vec<T>)
    ensures
        r@.len() == v@.len(),
        forall|k: int| 0 <= k < r@.len() ==> r@[k] == v@[v@.len() - 1 - k],
{
    let ghost all = v@;
    let mut v = v;
    let mut r: Vec<T> = Vec::new();
    while v.len() > 0
        invariant
            v@.len() + r@.len() == all.len(),
            forall|k: int| 0 <= k < r@.len() ==> r@[k] == all[all.len() - 1 - k],
            forall|k: int| 0 <= k < v@.len() ==> v@[k] == all[k],
        decreases v@.len(),
    {
        let e = v.pop().unwrap();
        r.push(e);
    }
    r
}

/// What a store holds of a batch: each record under the key of its
/// identifier.
pub open spec fn stored(batch: Seq<(u128, LogData)>) -> Seq<(Seq<u8>, LogData)> {
    Seq::new(batch.len(), |i: int| (key_of(batch[i].0), batch[i].1))
}

/// What a store writes for a batch: each record under the key of its
/// identifier, in the order of the identifiers, which is the order of the
/// keys.
pub fn submit_entries(batch: LogBatch) -> (r: Vec<(Vec<u8>, LogData)>)
    requires
        batch.wf(),
    ensures
        r@.len() == batch@.len(),
        forall|i: int|
            0 <= i < r@.len() ==> (#[trigger] r@[i]).0@ == stored(batch@)[i].0 && r@[i].1
                == stored(batch@)[i].1,
        forall|i: int, j: int|
            0 <= i < j < r@.len() ==> bytes_lt((#[trigger] r@[i]).0@, (#[trigger] r@[j]).0@),
{
    let ghost all = batch@;
    let mut turned = reversed(batch.into_entries());
    let mut out: Vec<(Vec<u8>, LogData)> = Vec::new();
    while turned.len() > 0
        invariant
            out@.len() + turned@.len() == all.len(),
            forall|k: int| 0 <= k < turned@.len() ==> turned@[k] == all[all.len() - 1 - k],
            forall|k: int|
                0 <= k < out@.len() ==> (#[trigger] out@[k]).0@ == key_of(all[k].0) && out@[k].1
                    == all[k].1,
        decreases turned@.len(),
    {
        let e = turned.pop().unwrap();
        let key = u128_to_key(e.0);
        out.push((key, e.1));
    }
    proof {
        assert forall|i: int, j: int| 0 <= i < j < out@.len() implies bytes_lt(
            (#[trigger] out@[i]).0@,
            (#[trigger] out@[j]).0@,
        ) by {
            assert(all[i].0 < all[j].0);
            lemma_key_order(all[i].0, all[j].0);
        }
    }
    out
}

} // verus!
