//! What the store holds: the summary of each partition and the histogram of
//! one partition.

use vstd::prelude::*;
use vstd::slice::*;
use vstd::string::*;
use crate::error::{error_text, Error};
use crate::id::{be_value, day_of, slice_be_to_u128, time_of, ulid_day, Timestamp};
use crate::query::raw_names;
use crate::identity::{App, Host};
use crate::level::Level;
use crate::text::{decimal_text, lossy_text, utf8_lossy};
use crate::tree_name::{parse_tree_name, TreeName, TreeNameView};

verus! {

/// The summary of a partition that holds records: whose it is, and the times
/// of its first and of its last record.
pub struct LogTreeInfo {
    pub host: Host,
    pub app: App,
    pub level: Level,
    pub min: Timestamp,
    pub max: Timestamp,
}

/// The histogram of a partition: how many records it holds, and how many of
/// each day. The days are numbered as the proleptic Gregorian calendar
/// counts them from the year 1, and rise along `row_detail`.
pub struct LogTreeDetail {
    pub host: Host,
    pub app: App,
    pub level: Level,
    pub rows: usize,
    pub row_detail: Vec<(i32, usize)>,
}

/// The partition that a histogram is asked of.
pub struct LogTreeDetailParams {
    pub level: Level,
    pub host: Host,
    pub app: App,
}

/// Why a partition has no summary.
#[derive(Debug)]
pub struct ParseLogTreeInfoError(pub String);

/// What a partition holds at its two ends: its name as the store gives it,
/// and its first and its last key where it has any.
pub struct PartitionEnds {
    pub name: Vec<u8>,
    pub first: Option<Vec<u8>>,
    pub last: Option<Vec<u8>>,
}

/// A summary as plain values.
pub struct InfoView {
    pub tree: TreeNameView,
    pub min: int,
    pub max: int,
}

impl View for LogTreeInfo {
    type V = InfoView;

    open spec fn view(&self) -> InfoView {
        InfoView {
            tree: TreeNameView { host: self.host@, app: self.app@, level: self.level },
            min: self.min@,
            max: self.max@,
        }
    }
}

/// The name of the partition that the store keeps for itself.
pub open spec fn internal_name() -> Seq<u8> {
    seq![95u8, 95u8, 115u8, 108u8, 101u8, 100u8, 95u8, 95u8, 100u8, 101u8, 102u8, 97u8, 117u8,
        108u8, 116u8]
}

/// What is told of a partition without records.
pub open spec fn empty_text(name: Seq<u8>) -> Seq<char> {
    "Tree "@ + utf8_lossy(name) + " is empty"@
}

/// What is told of a partition that is passed over for `reason`.
pub open spec fn skipped_text(name: Seq<u8>, reason: Seq<char>) -> Seq<char> {
    "Skipping invalid tree name "@ + utf8_lossy(name) + ", due to: "@ + reason
}

/// What a name that names no partition is told.
pub open spec fn bad_name_text(name: Seq<u8>) -> Seq<char> {
    "Error parsing tree name from bytes: "@ + utf8_lossy(name)
}

/// What a key that is no identifier is told.
pub open spec fn bad_key_text(len: nat) -> Seq<char> {
    "Bytes of length "@ + decimal_text(len) + " cannot be converted to a Ulid (16 required"@
}

/// What the ends of a partition come to, before anything is told: the
/// summary, nothing for a partition without records, or what is wrong.
pub enum Ends {
    Summary(InfoView),
    Empty,
    BadName,
    BadKey(nat),
}

/// What the ends of a partition come to. The name is read first; then the
/// first key, then the last. A partition without a first or a last key holds
/// no records.
pub open spec fn ends_of(name: Seq<u8>, first: Option<Seq<u8>>, last: Option<Seq<u8>>) -> Ends {
    match parse_tree_name(name) {
        None => Ends::BadName,
        Some(tree) => match first {
            None => Ends::Empty,
            Some(f) => if f.len() != 16 {
                Ends::BadKey(f.len())
            } else {
                match last {
                    None => Ends::Empty,
                    Some(l) => if l.len() != 16 {
                        Ends::BadKey(l.len())
                    } else {
                        Ends::Summary(
                            InfoView {
                                tree,
                                min: time_of(be_value(f) as u128),
                                max: time_of(be_value(l) as u128),
                            },
                        )
                    },
                }
            },
        },
    }
}

/// What the inventory says of a partition: its summary, or the text that
/// says why it has none.
pub open spec fn entry_of(name: Seq<u8>, first: Option<Seq<u8>>, last: Option<Seq<u8>>) -> Result<
    InfoView,
    Seq<char>,
> {
    match ends_of(name, first, last) {
        Ends::Summary(info) => Ok(info),
        Ends::Empty => Err(empty_text(name)),
        Ends::BadName => Err(skipped_text(name, bad_name_text(name))),
        Ends::BadKey(n) => Err(skipped_text(name, bad_key_text(n))),
    }
}

/// A key where there is one, as plain values.
pub open spec fn key_view(key: Option<Vec<u8>>) -> Option<Seq<u8>> {
    match key {
        Some(k) => Some(k@),
        None => None,
    }
}

/// An entry of an inventory as plain values.
pub open spec fn entry_view(entry: Result<LogTreeInfo, ParseLogTreeInfoError>) -> Result<
    InfoView,
    Seq<char>,
> {
    match entry {
        Ok(info) => Ok(info@),
        Err(e) => Err(e.0@),
    }
}

/// The entries of an inventory as plain values.
pub open spec fn entry_views(entries: Seq<Result<LogTreeInfo, ParseLogTreeInfoError>>) -> Seq<
    Result<InfoView, Seq<char>>,
> {
    Seq::new(entries.len(), |i: int| entry_view(entries[i]))
}

/// The inventory of the partitions: one entry for each partition that is not
/// the store's own, in their order.
pub open spec fn inventory(parts: Seq<PartitionEnds>) -> Seq<Result<InfoView, Seq<char>>>
    decreases parts.len(),
{
    if parts.len() == 0 {
        Seq::empty()
    } else {
        let rest = inventory(parts.drop_last());
        let p = parts.last();
        if p.name@ == internal_name() {
            rest
        } else {
            rest.push(entry_of(p.name@, key_view(p.first), key_view(p.last)))
        }
    }
}

/// Tells whether the name is that of the partition that the store keeps for
/// itself.
pub fn is_internal_tree(name: &[u8]) -> (r: bool)
    ensures
        r == (name@ == internal_name()),
{
    let own: [u8; 15] = [95, 95, 115, 108, 101, 100, 95, 95, 100, 101, 102, 97, 117, 108, 116];
    assert(own@ =~= internal_name());
    if name.len() != 15 {
        return false;
    }
    let mut i: usize = 0;
    while i < 15
        invariant
            i <= 15,
            name@.len() == 15,
            own@ == internal_name(),
            forall|k: int| 0 <= k < i ==> name@[k] == own@[k],
        decreases 15 - i,
    {
        if name[i] != own[i] {
            return false;
        }
        i = i + 1;
    }
    assert(name@ =~= own@);
    true
}

/// Reads the summary of a partition from its name and its two ends. A
/// partition without records has none. A name that names no partition, or a
/// key that is no identifier, is an error.
pub fn tree_name_to_info(name: &[u8], first: Option<&[u8]>, last: Option<&[u8]>) -> (r: Result<
    Option<LogTreeInfo>,
    Error,
>)
    ensures
        match ends_of(
            name@,
            match first {
                Some(k) => Some(k@),
                None => None,
            },
            match last {
                Some(k) => Some(k@),
                None => None,
            },
        ) {
            Ends::Summary(info) => r matches Ok(Some(i)) && i@ == info,
            Ends::Empty => r matches Ok(None),
            Ends::BadName => r matches Err(Error::ParseTreeNameFromBytes(b)) && b@ == name@,
            Ends::BadKey(n) => r matches Err(Error::InvalidLengthBytesForUlid(m)) && m == n,
        },
{
    let parsed = match TreeName::from_bytes(name) {
        Ok(t) => t,
        Err(e) => {
            return Err(e);
        },
    };
    let min = match first {
        Some(k) => match slice_be_to_u128(k) {
            Ok(id) => Timestamp::of_id(id),
            Err(e) => {
                assert(k@.len() == k.len());
                return Err(e);
            },
        },
        None => {
            return Ok(None);
        },
    };
    let max = match last {
        Some(k) => match slice_be_to_u128(k) {
            Ok(id) => Timestamp::of_id(id),
            Err(e) => {
                assert(k@.len() == k.len());
                return Err(e);
            },
        },
        None => {
            return Ok(None);
        },
    };
    Ok(
        Some(
            LogTreeInfo {
                host: parsed.host().clone(),
                app: parsed.app().clone(),
                level: parsed.level(),
                min,
                max,
            },
        ),
    )
}

/// Says of a partition what the inventory holds: its summary, or the text
/// that says that it is empty or why it is passed over.
pub fn info_entry(name: &[u8], outcome: Result<Option<LogTreeInfo>, Error>) -> (r: Result<
    LogTreeInfo,
    ParseLogTreeInfoError,
>)
    ensures
        match outcome {
            Ok(Some(info)) => r == Ok::<LogTreeInfo, ParseLogTreeInfoError>(info),
            Ok(None) => r matches Err(e) && e.0@ == empty_text(name@),
            Err(error) => r matches Err(e) && e.0@ == skipped_text(name@, error_text(error)),
        },
{
    match outcome {
        Ok(Some(info)) => Ok(info),
        Ok(None) => {
            let text = lossy_text(name);
            let msg = String::from_str("Tree ").concat(text.as_str()).concat(" is empty");
            Err(ParseLogTreeInfoError(msg))
        },
        Err(error) => {
            let text = lossy_text(name);
            let reason = error.message();
            let msg = String::from_str("Skipping invalid tree name ").concat(text.as_str()).concat(
                ", due to: ",
            ).concat(reason.as_str());
            Err(ParseLogTreeInfoError(msg))
        },
    }
}

/// The inventory of the partitions: for each partition that is not the
/// store's own, its summary or the text that says why it has none. One bad
/// partition does not fail the inventory.
pub fn info(parts: &Vec<PartitionEnds>) -> (r: Vec<Result<LogTreeInfo, ParseLogTreeInfoError>>)
    ensures
        entry_views(r@) == inventory(parts@),
{
    let mut out: Vec<Result<LogTreeInfo, ParseLogTreeInfoError>> = Vec::new();
    let mut i: usize = 0;
    proof {
        assert(parts@.subrange(0, 0) =~= Seq::<PartitionEnds>::empty());
        assert(entry_views(out@) =~= Seq::empty());
    }
    while i < parts.len()
        invariant
            i <= parts@.len(),
            entry_views(out@) == inventory(parts@.subrange(0, i as int)),
        decreases parts@.len() - i,
    {
        let p = &parts[i];
        let ghost before = entry_views(out@);
        let ghost head = parts@.subrange(0, i + 1);
        proof {
            assert(head.drop_last() =~= parts@.subrange(0, i as int));
            assert(head.last() == *p);
        }
        if !is_internal_tree(p.name.as_slice()) {
            let first: Option<&[u8]> = match &p.first {
                Some(k) => Some(k.as_slice()),
                None => None,
            };
            let last: Option<&[u8]> = match &p.last {
                Some(k) => Some(k.as_slice()),
                None => None,
            };
            let found = tree_name_to_info(p.name.as_slice(), first, last);
            let entry = info_entry(p.name.as_slice(), found);
            let ghost seen = entry_view(entry);
            proof {
                assert(seen == entry_of(p.name@, key_view(p.first), key_view(p.last)));
            }
            out.push(entry);
            proof {
                assert(entry_views(out@) =~= before.push(seen));
            }
        }
        i = i + 1;
    }
    proof {
        assert(parts@.subrange(0, parts@.len() as int) =~= parts@);
    }
    out
}

/// The number of keys whose identifier is of the day `day`.
pub open spec fn day_count(keys: Seq<Seq<u8>>, day: int) -> nat
    decreases keys.len(),
{
    if keys.len() == 0 {
        0
    } else {
        let rest = day_count(keys.drop_last(), day);
        if day_of(be_value(keys.last()) as u128) == day {
            rest + 1
        } else {
            rest
        }
    }
}

/// The days rise strictly along the histogram.
pub open spec fn days_rise(h: Seq<(i32, usize)>) -> bool {
    forall|i: int, j: int| 0 <= i < j < h.len() ==> h[i].0 < h[j].0
}

/// The number that the histogram holds for a day, or zero where it holds
/// none.
pub open spec fn count_in(h: Seq<(i32, usize)>, day: int) -> nat
    decreases h.len(),
{
    if h.len() == 0 {
        0
    } else if h.last().0 == day {
        h.last().1 as nat
    } else {
        count_in(h.drop_last(), day)
    }
}

/// The sum of the numbers of a histogram.
pub open spec fn total_of(h: Seq<(i32, usize)>) -> nat
    decreases h.len(),
{
    if h.len() == 0 {
        0
    } else {
        total_of(h.drop_last()) + h.last().1 as nat
    }
}

/// The histogram is that of the keys: its days rise, it holds no day
/// without a key, and for every day it holds the number of keys of that day.
pub open spec fn is_histogram(h: Seq<(i32, usize)>, keys: Seq<Seq<u8>>) -> bool {
    &&& days_rise(h)
    &&& forall|i: int| 0 <= i < h.len() ==> (#[trigger] h[i]).1 > 0
    &&& forall|day: int| count_in(h, day) == #[trigger] day_count(keys, day)
}

/// Every key has the 16 bytes of an identifier.
pub open spec fn all_ids(keys: Seq<Seq<u8>>) -> bool {
    forall|i: int| 0 <= i < keys.len() ==> (#[trigger] keys[i]).len() == 16
}

/// The key at `i` is the first that is no identifier.
pub open spec fn is_first_bad(keys: Seq<Seq<u8>>, i: int) -> bool {
    &&& 0 <= i < keys.len()
    &&& keys[i].len() != 16
    &&& forall|j: int| 0 <= j < i ==> (#[trigger] keys[j]).len() == 16
}

/// No day has more keys than there are keys.
pub proof fn lemma_day_count_bound(keys: Seq<Seq<u8>>, day: int)
    ensures
        day_count(keys, day) <= keys.len(),
    decreases keys.len(),
{
    if keys.len() > 0 {
        lemma_day_count_bound(keys.drop_last(), day);
    }
}

/// In a histogram whose days rise, the number held for the day of an entry
/// is that entry's number, and the number held for a day without an entry
/// is zero.
pub proof fn lemma_count_in(h: Seq<(i32, usize)>, day: int)
    requires
        days_rise(h),
    ensures
        forall|i: int|
            0 <= i < h.len() && (#[trigger] h[i]).0 == day ==> count_in(h, day) == h[i].1,
        (forall|i: int| 0 <= i < h.len() ==> (#[trigger] h[i]).0 != day) ==> count_in(h, day)
            == 0,
    decreases h.len(),
{
    if h.len() > 0 {
        let rest = h.drop_last();
        assert forall|i: int, j: int| 0 <= i < j < rest.len() implies rest[i].0 < rest[j].0 by {
            assert(rest[i] == h[i] && rest[j] == h[j]);
        }
        lemma_count_in(rest, day);
        assert forall|i: int| 0 <= i < h.len() && (#[trigger] h[i]).0 == day implies count_in(
            h,
            day,
        ) == h[i].1 by {
            if i < h.len() - 1 {
                assert(h[i].0 < h[h.len() - 1].0);
                assert(rest[i] == h[i]);
            }
        }
        if forall|i: int| 0 <= i < h.len() ==> (#[trigger] h[i]).0 != day {
            assert forall|i: int| 0 <= i < rest.len() implies (#[trigger] rest[i]).0 != day by {
                assert(rest[i] == h[i]);
            }
            assert(h[h.len() - 1].0 != day);
        }
    }
}

/// Where one number of a histogram is replaced, the sum changes by the
/// difference.
pub proof fn lemma_total_update(h: Seq<(i32, usize)>, p: int, entry: (i32, usize))
    requires
        0 <= p < h.len(),
    ensures
        total_of(h.update(p, entry)) + h[p].1 == total_of(h) + entry.1,
    decreases h.len(),
{
    let g = h.update(p, entry);
    if p == h.len() - 1 {
        assert(g.drop_last() =~= h.drop_last());
    } else {
        assert(g.drop_last() =~= h.drop_last().update(p, entry));
        lemma_total_update(h.drop_last(), p, entry);
    }
}

/// Where an entry is put into a histogram, the sum grows by its number.
pub proof fn lemma_total_insert(h: Seq<(i32, usize)>, p: int, entry: (i32, usize))
    requires
        0 <= p <= h.len(),
    ensures
        total_of(h.insert(p, entry)) == total_of(h) + entry.1,
    decreases h.len(),
{
    let g = h.insert(p, entry);
    if p == h.len() {
        assert(g.drop_last() =~= h);
    } else {
        assert(g.drop_last() =~= h.drop_last().insert(p, entry));
        assert(g.last() == h.last());
        lemma_total_insert(h.drop_last(), p, entry);
    }
}

/// Counts one more key of a day: the number of that day rises by one, and
/// every other day keeps its number.
pub fn bump(hist: &mut Vec<(i32, usize)>, day: i32)
    requires
        days_rise(old(hist)@),
        forall|i: int| 0 <= i < old(hist)@.len() ==> (#[trigger] old(hist)@[i]).1 < usize::MAX,
    ensures
        days_rise(final(hist)@),
        total_of(final(hist)@) == total_of(old(hist)@) + 1,
        forall|d: int|
            #[trigger] count_in(final(hist)@, d) == count_in(old(hist)@, d) + (if d == day {
                1nat
            } else {
                0nat
            }),
        forall|i: int|
            0 <= i < final(hist)@.len() ==> (#[trigger] final(hist)@[i]).1 > 0 || exists|j: int|
                0 <= j < old(hist)@.len() && old(hist)@[j] == final(hist)@[i],
{
    let ghost before = hist@;
    let n = hist.len();
    let mut p: usize = 0;
    while p < n && hist[p].0 < day
        invariant
            p <= n,
            n == hist@.len(),
            hist@ == before,
            forall|k: int| 0 <= k < p ==> (#[trigger] hist@[k]).0 < day,
        decreases n - p,
    {
        p = p + 1;
    }
    if p < n && hist[p].0 == day {
        let c = hist[p].1;
        hist.set(p, (day, c + 1));
        proof {
            let after = hist@;
            lemma_total_update(before, p as int, (day, (c + 1) as usize));
            assert forall|i: int, j: int| 0 <= i < j < after.len() implies after[i].0
                < after[j].0 by {
                assert(before[i].0 < before[j].0);
            }
            assert forall|d: int| #[trigger]
                count_in(after, d) == count_in(before, d) + (if d == day {
                    1nat
                } else {
                    0nat
                }) by {
                lemma_count_in(after, d);
                lemma_count_in(before, d);
                if d == day {
                    assert(after[p as int].0 == d);
                    assert(before[p as int].0 == d);
                } else if exists|i: int| 0 <= i < before.len() && (#[trigger] before[i]).0 == d {
                    let i = choose|i: int| 0 <= i < before.len() && (#[trigger] before[i]).0 == d;
                    assert(after[i] == before[i]);
                } else {
                    assert forall|i: int| 0 <= i < after.len() implies (#[trigger] after[i]).0
                        != d by {
                        assert(before[i].0 != d);
                    }
                }
            }
            assert forall|i: int| 0 <= i < after.len() implies (#[trigger] after[i]).1 > 0
                || exists|j: int| 0 <= j < before.len() && before[j] == after[i] by {
                if i != p {
                    assert(before[i] == after[i]);
                }
            }
        }
    } else {
        hist.insert(p, (day, 1));
        proof {
            let after = hist@;
            lemma_total_insert(before, p as int, (day, 1usize));
            assert forall|i: int, j: int| 0 <= i < j < after.len() implies after[i].0
                < after[j].0 by {
                let a = if i < p {
                    i
                } else {
                    i - 1
                };
                let b = if j < p {
                    j
                } else {
                    j - 1
                };
                if i != p && j != p {
                    assert(before[a].0 < before[b].0);
                } else if i == p {
                    if b > p {
                        assert(before[p as int].0 < before[b].0);
                    }
                }
            }
            assert forall|d: int| #[trigger]
                count_in(after, d) == count_in(before, d) + (if d == day {
                    1nat
                } else {
                    0nat
                }) by {
                lemma_count_in(after, d);
                lemma_count_in(before, d);
                if d == day {
                    assert(after[p as int].0 == d);
                    assert forall|i: int| 0 <= i < before.len() implies (#[trigger] before[i]).0
                        != d by {
                        if i >= p {
                            if i > p {
                                assert(before[p as int].0 < before[i].0);
                            }
                        }
                    }
                } else if exists|i: int| 0 <= i < before.len() && (#[trigger] before[i]).0 == d {
                    let i = choose|i: int| 0 <= i < before.len() && (#[trigger] before[i]).0 == d;
                    let k = if i < p {
                        i
                    } else {
                        i + 1
                    };
                    assert(after[k] == before[i]);
                } else {
                    assert forall|i: int| 0 <= i < after.len() implies (#[trigger] after[i]).0
                        != d by {
                        if i < p {
                            assert(before[i].0 != d);
                        } else if i > p {
                            assert(before[i - 1].0 != d);
                        }
                    }
                }
            }
            assert forall|i: int| 0 <= i < after.len() implies (#[trigger] after[i]).1 > 0
                || exists|j: int| 0 <= j < before.len() && before[j] == after[i] by {
                if i < p {
                    assert(before[i] == after[i]);
                } else if i > p {
                    assert(before[i - 1] == after[i]);
                }
            }
        }
    }
}

/// The histogram of a partition from its keys, in any order: the number of
/// keys, and for each day that has keys their number. A key that is no
/// identifier fails the histogram; the error tells the length of the first
/// such key.
pub fn detail(host: &Host, app: &App, level: Level, keys: &Vec<Vec<u8>>) -> (r: Result<
    LogTreeDetail,
    Error,
>)
    ensures
        all_ids(raw_names(keys@)) ==> {
            &&& r matches Ok(d)
            &&& d.host@ == host@
            &&& d.app@ == app@
            &&& d.level == level
            &&& d.rows == keys@.len()
            &&& d.rows == total_of(d.row_detail@)
            &&& is_histogram(d.row_detail@, raw_names(keys@))
        },
        !all_ids(raw_names(keys@)) ==> exists|i: int|
            #[trigger] is_first_bad(raw_names(keys@), i) && r == Err::<LogTreeDetail, Error>(
                Error::InvalidLengthBytesForUlid(keys@[i]@.len() as usize),
            ),
{
    let ghost names = raw_names(keys@);
    let mut hist: Vec<(i32, usize)> = Vec::new();
    let mut i: usize = 0;
    proof {
        assert(names.subrange(0, 0) =~= Seq::<Seq<u8>>::empty());
    }
    while i < keys.len()
        invariant
            i <= keys@.len(),
            names == raw_names(keys@),
            forall|j: int| 0 <= j < i ==> (#[trigger] names[j]).len() == 16,
            is_histogram(hist@, names.subrange(0, i as int)),
            total_of(hist@) == i,
        decreases keys@.len() - i,
    {
        let ghost head = names.subrange(0, i as int);
        let ghost next = names.subrange(0, i + 1);
        let ghost before = hist@;
        let id = match slice_be_to_u128(keys[i].as_slice()) {
            Ok(id) => id,
            Err(e) => {
                assert(keys@[i as int]@.len() == keys[i as int].len());
                assert(is_first_bad(names, i as int));
                return Err(e);
            },
        };
        assert(names[i as int].len() == 16);
        let day = ulid_day(id);
        proof {
            assert(next.drop_last() =~= head);
            assert(next.last() == keys@[i as int]@);
            assert forall|k: int| 0 <= k < before.len() implies (#[trigger] before[k]).1
                < usize::MAX by {
                lemma_count_in(before, before[k].0 as int);
                lemma_day_count_bound(head, before[k].0 as int);
            }
        }
        bump(&mut hist, day);
        proof {
            assert forall|d: int| count_in(hist@, d) == #[trigger] day_count(next, d) by {
                assert(count_in(before, d) == day_count(head, d));
            }
            assert forall|k: int| 0 <= k < hist@.len() implies (#[trigger] hist@[k]).1 > 0 by {
                if !(hist@[k].1 > 0) {
                    let j = choose|j: int| 0 <= j < before.len() && before[j] == hist@[k];
                    assert(before[j].1 > 0);
                }
            }
        }
        i = i + 1;
    }
    proof {
        assert(names.subrange(0, keys@.len() as int) =~= names);
    }
    Ok(
        LogTreeDetail {
            host: host.clone(),
            app: app.clone(),
            level,
            rows: keys.len(),
            row_detail: hist,
        },
    )
}

} // verus!
