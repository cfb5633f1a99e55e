//! What comes back of what was stored: the laws that tie a record brought
//! into a partition to the results of a query over any number of partitions.

use vstd::prelude::*;
use crate::id::{be_value, key_of, lemma_be_value_of_bytes, lemma_pow256_16};
use crate::query::{
    lemma_key_range, max_level_of, scan, scan_all, select_trees, Filter, Hit, QueryParams, Scan,
};
use crate::record::{
    batch_insert, has_id, ids_rise, lemma_batch_insert, lemma_lower_count, lower_count, stored,
    LogData,
};
use crate::tree_name::{parse_tree_name, TreeNameView};

verus! {

/// A query that keeps every message and knows no limit.
pub open spec fn no_filter() -> Filter {
    Filter { must: None, must_not: None, max: None }
}

/// The records of a partition whose identifiers lie between two bounds, as
/// the results that they give, in their order.
pub open spec fn span_hits(
    tree: TreeNameView,
    part: Seq<(u128, LogData)>,
    lo: u128,
    hi: u128,
) -> Seq<Hit>
    decreases part.len(),
{
    if part.len() == 0 {
        Seq::empty()
    } else if lo <= part[0].0 <= hi {
        seq![Hit { tree, id: part[0].0, data: part[0].1 }] + span_hits(
            tree,
            part.drop_first(),
            lo,
            hi,
        )
    } else {
        span_hits(tree, part.drop_first(), lo, hi)
    }
}

/// What the partitions hold, each as a store holds it.
pub open spec fn stored_parts(parts: Seq<Seq<(u128, LogData)>>) -> Seq<Seq<(Seq<u8>, LogData)>> {
    Seq::new(parts.len(), |i: int| stored(parts[i]))
}

/// The results that the partitions give between two bounds, one partition
/// after the other.
pub open spec fn all_hits(
    trees: Seq<TreeNameView>,
    parts: Seq<Seq<(u128, LogData)>>,
    lo: u128,
    hi: u128,
) -> Seq<Hit>
    decreases trees.len(),
{
    if trees.len() == 0 || parts.len() == 0 {
        Seq::empty()
    } else {
        span_hits(trees[0], parts[0], lo, hi) + all_hits(
            trees.drop_first(),
            parts.drop_first(),
            lo,
            hi,
        )
    }
}

/// The result is of the partition and the identifier, and holds the record
/// where one is asked for.
pub open spec fn is_wanted(h: Hit, tree: TreeNameView, id: u128, data: Option<LogData>) -> bool {
    &&& h.tree == tree
    &&& h.id == id
    &&& data matches Some(d) ==> h.data == d
}

/// The number of results of a partition and an identifier that hold the
/// record, where one is asked for.
pub open spec fn count_of(
    hits: Seq<Hit>,
    tree: TreeNameView,
    id: u128,
    data: Option<LogData>,
) -> nat
    decreases hits.len(),
{
    if hits.len() == 0 {
        0
    } else {
        count_of(hits.drop_first(), tree, id, data) + if is_wanted(hits[0], tree, id, data) {
            1nat
        } else {
            0nat
        }
    }
}

/// The partitions are all different.
pub open spec fn trees_differ(trees: Seq<TreeNameView>) -> bool {
    forall|i: int, j: int| 0 <= i < j < trees.len() ==> trees[i] != trees[j]
}

/// The identifiers of every partition rise.
pub open spec fn parts_rise(parts: Seq<Seq<(u128, LogData)>>) -> bool {
    forall|i: int| 0 <= i < parts.len() ==> ids_rise(#[trigger] parts[i])
}

/// The partition holds the record under the identifier.
pub open spec fn holds(part: Seq<(u128, LogData)>, id: u128, data: LogData) -> bool {
    exists|i: int| 0 <= i < part.len() && #[trigger] part[i] == (id, data)
}

/// What is counted in two runs of results is counted in both together.
pub proof fn lemma_count_add(
    a: Seq<Hit>,
    b: Seq<Hit>,
    tree: TreeNameView,
    id: u128,
    data: Option<LogData>,
)
    ensures
        count_of(a + b, tree, id, data) == count_of(a, tree, id, data) + count_of(
            b,
            tree,
            id,
            data,
        ),
    decreases a.len(),
{
    if a.len() == 0 {
        assert(a + b =~= b);
    } else {
        assert((a + b).drop_first() =~= a.drop_first() + b);
        lemma_count_add(a.drop_first(), b, tree, id, data);
    }
}

/// Of the results of one partition between two bounds, none is of another
/// partition, of an identifier that the partition does not hold, or of one
/// outside the bounds; and exactly one is of an identifier that the
/// partition holds between the bounds, with the record that stands under it.
pub proof fn lemma_span_count(
    tree: TreeNameView,
    part: Seq<(u128, LogData)>,
    lo: u128,
    hi: u128,
    wanted: TreeNameView,
    id: u128,
    data: Option<LogData>,
)
    requires
        ids_rise(part),
    ensures
        tree != wanted || !has_id(part, id) || !(lo <= id <= hi) ==> count_of(
            span_hits(tree, part, lo, hi),
            wanted,
            id,
            data,
        ) == 0,
        tree == wanted && lo <= id <= hi && (exists|i: int|
            0 <= i < part.len() && (#[trigger] part[i]).0 == id && (data matches Some(d)
                ==> part[i].1 == d)) ==> count_of(span_hits(tree, part, lo, hi), wanted, id, data)
            == 1,
    decreases part.len(),
{
    if part.len() > 0 {
        let rest = part.drop_first();
        assert forall|i: int, j: int| 0 <= i < j < rest.len() implies rest[i].0 < rest[j].0 by {
            assert(part[i + 1].0 < part[j + 1].0);
        }
        lemma_span_count(tree, rest, lo, hi, wanted, id, data);
        let tail = span_hits(tree, rest, lo, hi);
        let all = span_hits(tree, part, lo, hi);
        let first = Hit { tree, id: part[0].0, data: part[0].1 };
        if lo <= part[0].0 <= hi {
            assert(all.drop_first() =~= tail);
            assert(all[0] == first);
        }
        if part[0].0 == id {
            assert(!has_id(rest, id)) by {
                if has_id(rest, id) {
                    let j = choose|j: int| 0 <= j < rest.len() && (#[trigger] rest[j]).0 == id;
                    assert(part[0].0 < part[j + 1].0);
                }
            }
            assert(has_id(part, id));
            if exists|i: int|
                0 <= i < part.len() && (#[trigger] part[i]).0 == id && (data matches Some(d)
                    ==> part[i].1 == d) {
                let i = choose|i: int|
                    0 <= i < part.len() && (#[trigger] part[i]).0 == id && (data matches Some(d)
                        ==> part[i].1 == d);
                if i > 0 {
                    assert(part[0].0 < part[i].0);
                }
            }
        } else {
            if has_id(part, id) {
                let i = choose|i: int| 0 <= i < part.len() && (#[trigger] part[i]).0 == id;
                assert(rest[i - 1].0 == id);
            }
            if has_id(rest, id) {
                let j = choose|j: int| 0 <= j < rest.len() && (#[trigger] rest[j]).0 == id;
                assert(part[j + 1].0 == id);
            }
            if exists|i: int|
                0 <= i < part.len() && (#[trigger] part[i]).0 == id && (data matches Some(d)
                    ==> part[i].1 == d) {
                let i = choose|i: int|
                    0 <= i < part.len() && (#[trigger] part[i]).0 == id && (data matches Some(d)
                        ==> part[i].1 == d);
                assert(rest[i - 1] == part[i]);
            }
        }
    }
}

/// Where no partition is the wanted one, none of the results is of it.
pub proof fn lemma_all_count_none(
    trees: Seq<TreeNameView>,
    parts: Seq<Seq<(u128, LogData)>>,
    lo: u128,
    hi: u128,
    wanted: TreeNameView,
    id: u128,
    data: Option<LogData>,
)
    requires
        parts_rise(parts),
        forall|i: int| 0 <= i < trees.len() ==> trees[i] != wanted,
    ensures
        count_of(all_hits(trees, parts, lo, hi), wanted, id, data) == 0,
    decreases trees.len(),
{
    if trees.len() == 0 || parts.len() == 0 {
    } else {
        let rest_trees = trees.drop_first();
        let rest_parts = parts.drop_first();
        assert(ids_rise(parts[0]));
        assert forall|i: int| 0 <= i < rest_parts.len() implies ids_rise(
            #[trigger] rest_parts[i],
        ) by {
            assert(rest_parts[i] == parts[i + 1]);
        }
        assert forall|i: int| 0 <= i < rest_trees.len() implies rest_trees[i] != wanted by {
            assert(rest_trees[i] == trees[i + 1]);
        }
        lemma_span_count(trees[0], parts[0], lo, hi, wanted, id, data);
        lemma_all_count_none(rest_trees, rest_parts, lo, hi, wanted, id, data);
        lemma_count_add(
            span_hits(trees[0], parts[0], lo, hi),
            all_hits(rest_trees, rest_parts, lo, hi),
            wanted,
            id,
            data,
        );
    }
}

/// Where the partitions are all different and one of them holds an
/// identifier between the bounds, exactly one of all results is of that
/// partition and that identifier, with the record that stands under it.
pub proof fn lemma_all_count_one(
    trees: Seq<TreeNameView>,
    parts: Seq<Seq<(u128, LogData)>>,
    lo: u128,
    hi: u128,
    k: int,
    id: u128,
    data: Option<LogData>,
)
    requires
        trees.len() == parts.len(),
        trees_differ(trees),
        parts_rise(parts),
        0 <= k < trees.len(),
        lo <= id <= hi,
        exists|i: int|
            0 <= i < parts[k].len() && (#[trigger] parts[k][i]).0 == id && (data matches Some(d)
                ==> parts[k][i].1 == d),
    ensures
        count_of(all_hits(trees, parts, lo, hi), trees[k], id, data) == 1,
    decreases trees.len(),
{
    let rest_trees = trees.drop_first();
    let rest_parts = parts.drop_first();
    assert(ids_rise(parts[0]));
    assert forall|i: int| 0 <= i < rest_parts.len() implies ids_rise(#[trigger] rest_parts[i]) by {
        assert(rest_parts[i] == parts[i + 1]);
    }
    lemma_span_count(trees[0], parts[0], lo, hi, trees[k], id, data);
    lemma_count_add(
        span_hits(trees[0], parts[0], lo, hi),
        all_hits(rest_trees, rest_parts, lo, hi),
        trees[k],
        id,
        data,
    );
    if k == 0 {
        assert forall|i: int| 0 <= i < rest_trees.len() implies rest_trees[i] != trees[0] by {
            assert(trees[0] != trees[i + 1]);
        }
        lemma_all_count_none(rest_trees, rest_parts, lo, hi, trees[0], id, data);
    } else {
        assert(trees[0] != trees[k]);
        assert forall|i: int, j: int| 0 <= i < j < rest_trees.len() implies rest_trees[i]
            != rest_trees[j] by {
            assert(trees[i + 1] != trees[j + 1]);
        }
        assert(rest_parts[k - 1] == parts[k]);
        assert(rest_trees[k - 1] == trees[k]);
        lemma_all_count_one(rest_trees, rest_parts, lo, hi, k - 1, id, data);
    }
}

/// A query that keeps every message and knows no limit returns of a
/// partition the records between its bounds, in their order.
pub proof fn lemma_scan_plain(
    tree: TreeNameView,
    part: Seq<(u128, LogData)>,
    lo: u128,
    hi: u128,
    found: int,
)
    ensures
        scan(tree, stored(part), no_filter(), lo, hi, found) == Scan::Hits(
            span_hits(tree, part, lo, hi),
        ),
    decreases part.len(),
{
    let entries = stored(part);
    if part.len() == 0 {
    } else {
        let rest = part.drop_first();
        assert(entries.drop_first() =~= stored(rest));
        lemma_pow256_16();
        lemma_be_value_of_bytes(part[0].0 as nat, 16);
        lemma_key_range(key_of(part[0].0), lo, hi);
        assert(be_value(entries[0].0) == part[0].0);
        lemma_scan_plain(tree, rest, lo, hi, found);
        lemma_scan_plain(tree, rest, lo, hi, found + 1);
    }
}

/// A query that keeps every message and knows no limit returns of the
/// partitions that it reads the records between its bounds, one partition
/// after the other.
pub proof fn lemma_scan_all_plain(
    trees: Seq<TreeNameView>,
    parts: Seq<Seq<(u128, LogData)>>,
    lo: u128,
    hi: u128,
    found: int,
)
    ensures
        scan_all(trees, stored_parts(parts), no_filter(), lo, hi, found) == Scan::Hits(
            all_hits(trees, parts, lo, hi),
        ),
    decreases trees.len(),
{
    let held = stored_parts(parts);
    if trees.len() == 0 || parts.len() == 0 {
    } else {
        let h = span_hits(trees[0], parts[0], lo, hi);
        lemma_scan_plain(trees[0], parts[0], lo, hi, found);
        assert(held[0] == stored(parts[0]));
        assert(held.drop_first() =~= stored_parts(parts.drop_first()));
        lemma_scan_all_plain(trees.drop_first(), parts.drop_first(), lo, hi, found + h.len());
    }
}

/// A record that was put into a partition stands there under its
/// identifier, and the identifiers of the partition still rise.
pub proof fn lemma_insert_holds(part: Seq<(u128, LogData)>, id: u128, data: LogData)
    requires
        ids_rise(part),
    ensures
        ids_rise(batch_insert(part, id, data)),
        holds(batch_insert(part, id, data), id, data),
{
    lemma_batch_insert(part, id, data);
    lemma_lower_count(part, id);
    let p = lower_count(part, id);
    assert(batch_insert(part, id, data)[p] == (id, data));
}

/// A record comes back as it was stored, whatever else the store holds:
/// after the record was put under its identifier into one of the partitions
/// that a query reads, a query that keeps every message, knows no limit and
/// has the identifier between its bounds returns exactly one result of that
/// partition and that identifier, and this result holds the record.
pub proof fn lemma_submitted_comes_back(
    trees: Seq<TreeNameView>,
    parts: Seq<Seq<(u128, LogData)>>,
    k: int,
    id: u128,
    data: LogData,
    lo: u128,
    hi: u128,
)
    requires
        trees.len() == parts.len(),
        trees_differ(trees),
        parts_rise(parts),
        0 <= k < trees.len(),
        lo <= id <= hi,
    ensures
        ({
            let after = parts.update(k, batch_insert(parts[k], id, data));
            &&& scan_all(trees, stored_parts(after), no_filter(), lo, hi, 0) matches Scan::Hits(v)
            &&& count_of(v, trees[k], id, None) == 1
            &&& count_of(v, trees[k], id, Some(data)) == 1
        }),
{
    let after = parts.update(k, batch_insert(parts[k], id, data));
    lemma_insert_holds(parts[k], id, data);
    assert forall|i: int| 0 <= i < after.len() implies ids_rise(#[trigger] after[i]) by {
        if i != k {
            assert(after[i] == parts[i]);
        }
    }
    let i = choose|i: int| 0 <= i < after[k].len() && #[trigger] after[k][i] == (id, data);
    assert(after[k][i].0 == id && after[k][i].1 == data);
    lemma_scan_all_plain(trees, after, lo, hi, 0);
    lemma_all_count_one(trees, after, lo, hi, k, id, None);
    lemma_all_count_one(trees, after, lo, hi, k, id, Some(data));
}

/// A query without a filter on host and application reads every partition
/// that the store names and whose severity is significant enough.
pub proof fn lemma_selected(names: Seq<Seq<u8>>, params: QueryParams, k: int)
    requires
        0 <= k < names.len(),
        parse_tree_name(names[k]) is Some,
        params.host_contains is None,
        params.app_contains is None,
        parse_tree_name(names[k])->0.level.weight() <= max_level_of(params).weight(),
    ensures
        select_trees(names, params).contains(parse_tree_name(names[k])->0),
    decreases names.len(),
{
    let t = parse_tree_name(names[k])->0;
    let head = names.drop_last();
    let before = select_trees(head, params);
    if k == names.len() - 1 {
        assert(select_trees(names, params) == before.push(t));
        assert(before.push(t)[before.len() as int] == t);
    } else {
        assert(head[k] == names[k]);
        lemma_selected(head, params, k);
        let i = choose|i: int| 0 <= i < before.len() && before[i] == t;
        let all = select_trees(names, params);
        assert(all[i] == t);
    }
}

} // verus!
