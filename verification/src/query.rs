//! The query engine: which partitions a query reads, between which keys, and
//! which of the entries it returns.

use vstd::prelude::*;
use vstd::slice::*;
use vstd::string::*;
use crate::error::Error;
use crate::id::{
    be_value, bytes_lt, key_of, lemma_be_value_bound, lemma_be_value_of_bytes,
    lemma_bytes_of_be_value, lemma_floor_ceiling_bound, lemma_key_order, lemma_pow256_16,
    slice_be_to_u128, suffix_span, time_of, u128_to_key, Timestamp,
};
use crate::identity::{App, Host};
use crate::level::Level;
use crate::pattern::{
    compile_filter, pattern_compiles, pattern_matches, pattern_refusal, Pattern,
};
use crate::record::{
    absorb, has_id, ids_rise, lemma_absorb, lemma_absorb_ids, reversed, stored, LogData,
};
use crate::text::{bytes_of, lemma_label_is_ascii};
use crate::tree_name::{parse_tree_name, TreeName, TreeNameView};

verus! {

broadcast use vstd::string::is_ascii_spec_bytes;

/// What a query asks for. Every part is optional.
pub struct QueryParams {
    /// Only records at least as significant as this severity are returned;
    /// `Info` where none is given.
    pub max_log_level: Option<Level>,
    pub start_timestamp: Option<Timestamp>,
    pub end_timestamp: Option<Timestamp>,
    pub host_contains: Option<Host>,
    pub app_contains: Option<App>,
    pub message_matches: Option<String>,
    pub message_not_matches: Option<String>,
    pub max_results: Option<usize>,
}

/// One record that a query returns.
pub struct QueryResponse {
    pub host: Host,
    pub app: App,
    pub level: Level,
    pub id: u128,
    pub data: LogData,
}

/// One record that a query returns, as plain values.
pub struct Hit {
    pub tree: TreeNameView,
    pub id: u128,
    pub data: LogData,
}

impl View for QueryResponse {
    type V = Hit;

    open spec fn view(&self) -> Hit {
        Hit {
            tree: TreeNameView { host: self.host@, app: self.app@, level: self.level },
            id: self.id,
            data: self.data,
        }
    }
}

/// The `len` bytes of `hay` from `at` on.
pub open spec fn window(hay: Seq<u8>, at: int, len: int) -> Seq<u8> {
    hay.subrange(at, at + len)
}

/// `needle` stands somewhere in `hay`.
pub open spec fn is_subslice(hay: Seq<u8>, needle: Seq<u8>) -> bool {
    exists|i: int|
        0 <= i && i + needle.len() <= hay.len() && #[trigger] window(hay, i, needle.len() as int)
            == needle
}

/// `a` does not come after `b` in the order of byte strings: `a` is the start
/// of `b`, or has the smaller byte where they first differ.
pub open spec fn lex_le(a: Seq<u8>, b: Seq<u8>) -> bool
    decreases a.len(),
{
    if a.len() == 0 {
        true
    } else if b.len() == 0 {
        false
    } else if a[0] != b[0] {
        a[0] < b[0]
    } else {
        lex_le(a.drop_first(), b.drop_first())
    }
}

/// The key lies between the keys of two identifiers, both included.
pub open spec fn key_in_range(key: Seq<u8>, lo: u128, hi: u128) -> bool {
    lex_le(key_of(lo), key) && lex_le(key, key_of(hi))
}

/// The severity up to which a query reads.
pub open spec fn max_level_of(params: QueryParams) -> Level {
    match params.max_log_level {
        Some(l) => l,
        None => Level::Info,
    }
}

/// The least key that a query reads.
pub open spec fn start_of(params: QueryParams) -> int {
    match params.start_timestamp {
        Some(t) => t@ * suffix_span(),
        None => 0,
    }
}

/// The greatest key that a query reads.
pub open spec fn end_of(params: QueryParams) -> int {
    match params.end_timestamp {
        Some(t) => t@ * suffix_span() + suffix_span() - 1,
        None => u128::MAX as int,
    }
}

/// The query reads the partition: its host and its application hold what the
/// query asks them to hold, and its severity is significant enough.
pub open spec fn tree_selected(t: TreeNameView, params: QueryParams) -> bool {
    &&& params.host_contains matches Some(h) ==> is_subslice(bytes_of(t.host), bytes_of(h@))
    &&& params.app_contains matches Some(a) ==> is_subslice(bytes_of(t.app), bytes_of(a@))
    &&& t.level.weight() <= max_level_of(params).weight()
}

/// The partitions that a query reads, of those that the store names: the
/// names that parse and are selected, in the order of the names.
pub open spec fn select_trees(names: Seq<Seq<u8>>, params: QueryParams) -> Seq<TreeNameView>
    decreases names.len(),
{
    if names.len() == 0 {
        Seq::empty()
    } else {
        let rest = select_trees(names.drop_last(), params);
        match parse_tree_name(names.last()) {
            Some(t) => if tree_selected(t, params) {
                rest.push(t)
            } else {
                rest
            },
            None => rest,
        }
    }
}

/// The names as byte strings.
pub open spec fn raw_names(names: Seq<Vec<u8>>) -> Seq<Seq<u8>> {
    Seq::new(names.len(), |i: int| names[i]@)
}

/// The partitions as plain values.
pub open spec fn tree_views(trees: Seq<TreeName>) -> Seq<TreeNameView> {
    Seq::new(trees.len(), |i: int| trees[i]@)
}

/// Tells whether `needle` stands somewhere in `hay`.
pub fn contains_bytes(hay: &[u8], needle: &[u8]) -> (r: bool)
    ensures
        r == is_subslice(hay@, needle@),
{
    let n = hay.len();
    let m = needle.len();
    if m > n {
        return false;
    }
    let mut i: usize = 0;
    while i <= n - m
        invariant
            m <= n,
            n == hay@.len(),
            m == needle@.len(),
            i <= n - m + 1,
            forall|k: int| 0 <= k < i ==> #[trigger] window(hay@, k, m as int) != needle@,
        decreases n - m + 1 - i,
    {
        let mut j: usize = 0;
        while j < m && hay[i + j] == needle[j]
            invariant
                j <= m,
                i + m <= n,
                n == hay@.len(),
                m == needle@.len(),
                forall|k: int| 0 <= k < j ==> hay@[i + k] == needle@[k],
            decreases m - j,
        {
            j = j + 1;
        }
        if j == m {
            assert(window(hay@, i as int, m as int) =~= needle@);
            return true;
        }
        assert(window(hay@, i as int, m as int)[j as int] != needle@[j as int]);
        i = i + 1;
    }
    false
}

/// Tells whether `input` passes a filter: it holds the filter's text
/// somewhere, or no filter is set.
pub fn filter_with_option(input: &str, filter: &Option<&str>) -> (r: bool)
    ensures
        r == (filter matches Some(f) ==> is_subslice(input.spec_bytes(), f.spec_bytes())),
{
    match filter {
        Some(f) => contains_bytes(input.as_bytes(), f.as_bytes()),
        None => true,
    }
}

/// Tells whether `a` does not come after `b` in the order of byte strings.
pub fn bytes_le(a: &[u8], b: &[u8]) -> (r: bool)
    ensures
        r == lex_le(a@, b@),
{
    let mut i: usize = 0;
    assert(a@.subrange(0, a@.len() as int) =~= a@);
    assert(b@.subrange(0, b@.len() as int) =~= b@);
    while i < a.len() && i < b.len()
        invariant
            i <= a@.len(),
            i <= b@.len(),
            lex_le(a@, b@) == lex_le(
                a@.subrange(i as int, a@.len() as int),
                b@.subrange(i as int, b@.len() as int),
            ),
        decreases a@.len() - i,
    {
        let ghost ra = a@.subrange(i as int, a@.len() as int);
        let ghost rb = b@.subrange(i as int, b@.len() as int);
        assert(ra.drop_first() =~= a@.subrange(i + 1, a@.len() as int));
        assert(rb.drop_first() =~= b@.subrange(i + 1, b@.len() as int));
        if a[i] != b[i] {
            return a[i] < b[i];
        }
        i = i + 1;
    }
    i >= a.len()
}

/// Tells whether the query reads the partition.
pub fn tree_matches(t: &TreeName, params: &QueryParams) -> (r: bool)
    ensures
        r == tree_selected(t@, *params),
{
    let host = t.host().as_str();
    let app = t.app().as_str();
    proof {
        lemma_label_is_ascii(host@);
        lemma_label_is_ascii(app@);
        assert(is_ascii(host) && is_ascii(app));
        assert(host.spec_bytes() =~= bytes_of(host@));
        assert(app.spec_bytes() =~= bytes_of(app@));
    }
    let host_ok = match &params.host_contains {
        Some(h) => {
            let f = h.as_str();
            proof {
                lemma_label_is_ascii(f@);
                assert(is_ascii(f));
                assert(f.spec_bytes() =~= bytes_of(f@));
            }
            filter_with_option(host, &Some(f))
        },
        None => true,
    };
    let app_ok = match &params.app_contains {
        Some(a) => {
            let f = a.as_str();
            proof {
                lemma_label_is_ascii(f@);
                assert(is_ascii(f));
                assert(f.spec_bytes() =~= bytes_of(f@));
            }
            filter_with_option(app, &Some(f))
        },
        None => true,
    };
    let max = match params.max_log_level {
        Some(l) => l,
        None => Level::Info,
    };
    host_ok && app_ok && t.level().at_most(&max)
}

/// The partitions that a query reads, of those that the store names. A name
/// that names no partition is passed over.
pub fn relevant_trees(tree_names: &Vec<Vec<u8>>, params: &QueryParams) -> (r: Vec<TreeName>)
    ensures
        tree_views(r@) == select_trees(raw_names(tree_names@), *params),
{
    let mut out: Vec<TreeName> = Vec::new();
    let mut i: usize = 0;
    let ghost names = raw_names(tree_names@);
    assert(names.subrange(0, 0) =~= Seq::<Seq<u8>>::empty());
    assert(tree_views(out@) =~= Seq::<TreeNameView>::empty());
    while i < tree_names.len()
        invariant
            i <= tree_names@.len(),
            names == raw_names(tree_names@),
            tree_views(out@) == select_trees(names.subrange(0, i as int), *params),
        decreases tree_names@.len() - i,
    {
        let ghost before = tree_views(out@);
        let ghost head = names.subrange(0, i + 1);
        assert(head.drop_last() =~= names.subrange(0, i as int));
        assert(head.last() == tree_names@[i as int]@);
        match TreeName::from_bytes(tree_names[i].as_slice()) {
            Ok(t) => {
                if tree_matches(&t, params) {
                    out.push(t);
                    assert(tree_views(out@) =~= before.push(t@));
                }
            },
            Err(_) => {},
        }
        i = i + 1;
    }
    assert(names.subrange(0, tree_names@.len() as int) =~= names);
    out
}

/// What a query keeps of the entries that it reads.
pub struct Filter {
    /// A pattern that the message has to match.
    pub must: Option<Seq<char>>,
    /// A pattern that the message must not match.
    pub must_not: Option<Seq<char>>,
    /// The number of results after which a partition is left.
    pub max: Option<usize>,
}

/// What a query asks of a message and of the number of results.
pub open spec fn filter_of(params: QueryParams) -> Filter {
    Filter {
        must: match params.message_matches {
            Some(s) => Some(s@),
            None => None,
        },
        must_not: match params.message_not_matches {
            Some(s) => Some(s@),
            None => None,
        },
        max: params.max_results,
    }
}

/// Both patterns of the query, where set, are regular expressions.
pub open spec fn filters_compile(params: QueryParams) -> bool {
    &&& params.message_matches matches Some(s) ==> pattern_compiles(s@)
    &&& params.message_not_matches matches Some(s) ==> pattern_compiles(s@)
}

/// The pattern that fails a query: the one that the message has to match
/// where it is no regular expression, else the other one.
pub open spec fn failing_pattern(params: QueryParams) -> Seq<char> {
    match params.message_matches {
        Some(s) => if pattern_compiles(s@) {
            params.message_not_matches->0@
        } else {
            s@
        },
        None => params.message_not_matches->0@,
    }
}

/// The message passes: it matches none of what it must not match, and it
/// matches what it has to match.
pub open spec fn keeps(f: Filter, message: Seq<char>) -> bool {
    &&& f.must_not matches Some(p) ==> !pattern_matches(p, message)
    &&& f.must matches Some(p) ==> pattern_matches(p, message)
}

/// What a query does before it reads an entry: the partitions to read, the
/// bounds of the keys, and the compiled patterns.
pub struct QueryPlan {
    pub trees: Vec<TreeName>,
    pub start: u128,
    pub end: u128,
    pub must_match: Option<Pattern>,
    pub must_not_match: Option<Pattern>,
    pub max_results: Option<usize>,
}

impl QueryPlan {
    /// What the plan keeps of the entries that it reads.
    pub open spec fn filter(&self) -> Filter {
        Filter {
            must: match self.must_match {
                Some(p) => Some(p.source()),
                None => None,
            },
            must_not: match self.must_not_match {
                Some(p) => Some(p.source()),
                None => None,
            },
            max: self.max_results,
        }
    }

    /// The least key to read.
    pub fn start_key(&self) -> (r: Vec<u8>)
        ensures
            r@ == key_of(self.start),
    {
        u128_to_key(self.start)
    }

    /// The greatest key to read.
    pub fn end_key(&self) -> (r: Vec<u8>)
        ensures
            r@ == key_of(self.end),
    {
        u128_to_key(self.end)
    }
}

/// Plans a query over the partitions that the store names. The partitions
/// are chosen and the bounds are set; then the patterns are compiled, and a
/// pattern that is no regular expression fails the query before anything is
/// read.
pub fn plan_query(tree_names: &Vec<Vec<u8>>, params: QueryParams) -> (r: Result<QueryPlan, Error>)
    ensures
        r is Ok <==> filters_compile(params),
        r matches Err(e) ==> e matches Error::Regex(t) && t@ == pattern_refusal(
            failing_pattern(params),
        ),
        r matches Ok(plan) ==> {
            &&& tree_views(plan.trees@) == select_trees(raw_names(tree_names@), params)
            &&& plan.start == start_of(params)
            &&& plan.end == end_of(params)
            &&& plan.filter() == filter_of(params)
        },
{
    let trees = relevant_trees(tree_names, &params);
    let start = match &params.start_timestamp {
        Some(t) => t.floor(),
        None => 0,
    };
    let end = match &params.end_timestamp {
        Some(t) => t.ceiling(),
        None => u128::MAX,
    };
    let must_match = match compile_filter(&params.message_matches) {
        Ok(p) => p,
        Err(e) => {
            return Err(e);
        },
    };
    let must_not_match = match compile_filter(&params.message_not_matches) {
        Ok(p) => p,
        Err(e) => {
            return Err(e);
        },
    };
    Ok(QueryPlan { trees, start, end, must_match, must_not_match, max_results: params.max_results })
}

/// What reading entries comes to: the records returned, or the length of
/// the first key that is no identifier.
pub enum Scan {
    Hits(Seq<Hit>),
    BadKey(usize),
}

/// The entries of a partition as plain values.
pub open spec fn entry_views(entries: Seq<(Vec<u8>, LogData)>) -> Seq<(Seq<u8>, LogData)> {
    Seq::new(entries.len(), |i: int| (entries[i].0@, entries[i].1))
}

/// The records returned as plain values.
pub open spec fn hit_views(response: Seq<QueryResponse>) -> Seq<Hit> {
    Seq::new(response.len(), |i: int| response[i]@)
}

/// The limit is passed: more results were found than the query asks for.
pub open spec fn limit_passed(f: Filter, found: int) -> bool {
    f.max matches Some(m) && m < found
}

/// What reading the entries of one partition in their order returns, when
/// `found` results were found before. The limit is looked at before each
/// entry, and the partition is left once it is passed. An entry outside the
/// bounds or with a message that does not pass is skipped. An entry that is
/// kept gives a result, unless its key is no identifier, which fails the
/// query.
pub open spec fn scan(
    tree: TreeNameView,
    entries: Seq<(Seq<u8>, LogData)>,
    f: Filter,
    lo: u128,
    hi: u128,
    found: int,
) -> Scan
    decreases entries.len(),
{
    if entries.len() == 0 || limit_passed(f, found) {
        Scan::Hits(Seq::empty())
    } else {
        let key = entries[0].0;
        let data = entries[0].1;
        let rest = entries.drop_first();
        if !key_in_range(key, lo, hi) || !keeps(f, data.message@) {
            scan(tree, rest, f, lo, hi, found)
        } else if key.len() != 16 {
            Scan::BadKey(key.len() as usize)
        } else {
            extend(
                seq![Hit { tree, id: be_value(key) as u128, data }],
                scan(tree, rest, f, lo, hi, found + 1),
            )
        }
    }
}

/// The outcome `then` after the results `head` were found: the results of
/// both, or the failure.
pub open spec fn extend(head: Seq<Hit>, then: Scan) -> Scan {
    match then {
        Scan::Hits(h) => Scan::Hits(head + h),
        Scan::BadKey(n) => Scan::BadKey(n),
    }
}

/// Results found one after the other are found together.
pub proof fn lemma_extend(a: Seq<Hit>, b: Seq<Hit>, then: Scan)
    ensures
        extend(a, extend(b, then)) == extend(a + b, then),
        extend(Seq::empty(), then) == then,
        extend(a, Scan::Hits(Seq::empty())) == Scan::Hits(a),
{
    match then {
        Scan::Hits(h) => {
            assert(a + (b + h) =~= (a + b) + h);
            assert(Seq::<Hit>::empty() + h =~= h);
        },
        Scan::BadKey(n) => {},
    }
    assert(a + Seq::<Hit>::empty() =~= a);
}

/// A query that is being run: its plan, and the records found so far.
pub struct QueryScan {
    plan: QueryPlan,
    response: Vec<QueryResponse>,
}

impl QueryScan {
    /// The plan that is run.
    pub closed spec fn plan(&self) -> QueryPlan {
        self.plan
    }

    /// The records found so far.
    pub closed spec fn hits(&self) -> Seq<Hit> {
        hit_views(self.response@)
    }

    /// Starts to run a plan: nothing is found yet.
    pub fn new(plan: QueryPlan) -> (r: QueryScan)
        ensures
            r.plan() == plan,
            r.hits() == Seq::<Hit>::empty(),
    {
        let r = QueryScan { plan, response: Vec::new() };
        assert(r.hits() =~= Seq::<Hit>::empty());
        r
    }

    /// The partitions to read, in their order.
    pub fn trees(&self) -> (r: &Vec<TreeName>)
        ensures
            r@ == self.plan().trees@,
    {
        &self.plan.trees
    }

    /// The least key to read.
    pub fn start_key(&self) -> (r: Vec<u8>)
        ensures
            r@ == key_of(self.plan().start),
    {
        self.plan.start_key()
    }

    /// The greatest key to read.
    pub fn end_key(&self) -> (r: Vec<u8>)
        ensures
            r@ == key_of(self.plan().end),
    {
        self.plan.end_key()
    }

    /// Tells whether the bounds leave nothing to read: the least key to read
    /// lies above the greatest. No key lies between such bounds.
    pub fn is_empty_range(&self) -> (r: bool)
        ensures
            r == (self.plan().start > self.plan().end),
            r ==> forall|key: Seq<u8>|
                !#[trigger] key_in_range(key, self.plan().start, self.plan().end),
    {
        proof {
            if self.plan.start > self.plan.end {
                assert forall|key: Seq<u8>|
                    !#[trigger] key_in_range(key, self.plan.start, self.plan.end) by {
                    lemma_empty_range(key, self.plan.start, self.plan.end);
                }
            }
        }
        self.plan.start > self.plan.end
    }

    /// Tells whether the partition at hand is read on: the limit is not
    /// passed.
    pub fn wants_more(&self) -> (r: bool)
        ensures
            r == !limit_passed(self.plan().filter(), self.hits().len() as int),
    {
        match self.plan.max_results {
            Some(max) => !(max < self.response.len()),
            None => true,
        }
    }

    /// Tells whether a message passes the patterns of the query.
    pub fn passes(&self, message: &str) -> (r: bool)
        ensures
            r == keeps(self.plan().filter(), message@),
    {
        let refused = match &self.plan.must_not_match {
            Some(p) => p.is_match(message),
            None => false,
        };
        if refused {
            return false;
        }
        match &self.plan.must_match {
            Some(p) => p.is_match(message),
            None => true,
        }
    }

    /// Takes one entry of a partition, read between the bounds. The entry is
    /// kept if and only if its message passes; then its key has to be an
    /// identifier, and the entry becomes the last result.
    pub fn offer(&mut self, tree: &TreeName, key: &[u8], data: LogData) -> (r: Result<bool, Error>)
        ensures
            final(self).plan() == old(self).plan(),
            if !keeps(old(self).plan().filter(), data.message@) {
                r == Ok::<bool, Error>(false) && final(self).hits() == old(self).hits()
            } else if key@.len() != 16 {
                r == Err::<bool, Error>(Error::InvalidLengthBytesForUlid(key@.len() as usize))
                    && final(self).hits() == old(self).hits()
            } else {
                r == Ok::<bool, Error>(true) && final(self).hits() == old(self).hits().push(
                    Hit { tree: tree@, id: be_value(key@) as u128, data },
                )
            },
    {
        if !self.passes(data.message.as_str()) {
            return Ok(false);
        }
        let id = match slice_be_to_u128(key) {
            Ok(id) => id,
            Err(e) => {
                return Err(e);
            },
        };
        let ghost before = self.hits();
        let hit = QueryResponse {
            host: tree.host().clone(),
            app: tree.app().clone(),
            level: tree.level(),
            id,
            data,
        };
        assert(hit@ == Hit { tree: tree@, id: be_value(key@) as u128, data });
        self.response.push(hit);
        assert(self.hits() =~= before.push(hit@));
        Ok(true)
    }

    /// Reads the entries of one partition in their order, as `scan` says: up
    /// to the limit, between the bounds, and past the patterns. A key that is
    /// no identifier fails the query at the entry that holds it.
    pub fn scan_entries(&mut self, tree: &TreeName, entries: Vec<(Vec<u8>, LogData)>) -> (r: Result<
        (),
        Error,
    >)
        ensures
            final(self).plan() == old(self).plan(),
            match scan(
                tree@,
                entry_views(entries@),
                old(self).plan().filter(),
                old(self).plan().start,
                old(self).plan().end,
                old(self).hits().len() as int,
            ) {
                Scan::Hits(h) => r is Ok && final(self).hits() == old(self).hits() + h,
                Scan::BadKey(n) => r == Err::<(), Error>(Error::InvalidLengthBytesForUlid(n)),
            },
    {
        let lo = self.plan.start_key();
        let hi = self.plan.end_key();
        let ghost all = entry_views(entries@);
        let ghost f = self.plan().filter();
        let ghost first = self.hits();
        let ghost start = self.plan().start;
        let ghost end = self.plan().end;
        let ghost total = scan(tree@, all, f, start, end, first.len() as int);
        let n = entries.len();
        let mut rest = reversed(entries);
        proof {
            assert forall|k: int| 0 <= k < rest@.len() implies (#[trigger] rest@[k].0@, rest@[k].1)
                == all[n - 1 - k] by {
                assert(rest@[k] == entries@[n - 1 - k]);
            }
        }
        let mut i: usize = 0;
        let mut open = true;
        let mut failure: Option<Error> = None;
        let ghost mut added: Seq<Hit> = Seq::empty();
        let ghost mut stop: Scan = Scan::Hits(Seq::empty());
        proof {
            assert(all.subrange(0, n as int) =~= all);
            assert(first + added =~= first);
            lemma_extend(added, added, total);
        }
        while rest.len() > 0 && open
            invariant
                i + rest@.len() == n,
                n == all.len(),
                self.plan() == old(self).plan(),
                f == self.plan().filter(),
                start == self.plan().start,
                end == self.plan().end,
                lo@ == key_of(start),
                hi@ == key_of(end),
                forall|k: int|
                    0 <= k < rest@.len() ==> (#[trigger] rest@[k].0@, rest@[k].1) == all[n - 1 - k],
                self.hits() == first + added,
                total == extend(
                    added,
                    if open {
                        scan(
                            tree@,
                            all.subrange(i as int, n as int),
                            f,
                            start,
                            end,
                            (first.len() + added.len()) as int,
                        )
                    } else {
                        stop
                    },
                ),
                !open ==> match stop {
                    Scan::Hits(h) => h.len() == 0 && failure is None,
                    Scan::BadKey(b) => failure == Some(Error::InvalidLengthBytesForUlid(b)),
                },
                open ==> failure is None,
            decreases rest@.len() + (if open {
                1int
            } else {
                0int
            }),
        {
            let ghost tail = all.subrange(i as int, n as int);
            if !self.wants_more() {
                open = false;
                proof {
                    stop = Scan::Hits(Seq::empty());
                }
            } else {
                let e = rest.pop().unwrap();
                proof {
                    assert((e.0@, e.1) == all[i as int]);
                    assert(tail[0] == all[i as int]);
                    assert(tail.drop_first() =~= all.subrange(i + 1, n as int));
                }
                i = i + 1;
                if bytes_le(lo.as_slice(), e.0.as_slice()) && bytes_le(
                    e.0.as_slice(),
                    hi.as_slice(),
                ) {
                    let ghost hit = Hit { tree: tree@, id: be_value(e.0@) as u128, data: e.1 };
                    let ghost key_len = e.0@.len();
                    match self.offer(tree, e.0.as_slice(), e.1) {
                        Ok(kept) => {
                            proof {
                                if kept {
                                    lemma_extend(
                                        added,
                                        seq![hit],
                                        scan(
                                            tree@,
                                            all.subrange(i as int, n as int),
                                            f,
                                            start,
                                            end,
                                            (first.len() + added.len() + 1) as int,
                                        ),
                                    );
                                    assert(added + seq![hit] =~= added.push(hit));
                                    assert(first + added.push(hit) =~= (first + added).push(hit));
                                    added = added.push(hit);
                                }
                            }
                        },
                        Err(err) => {
                            failure = Some(err);
                            open = false;
                            proof {
                                stop = Scan::BadKey(key_len as usize);
                            }
                        },
                    }
                }
            }
        }
        proof {
            if open {
                assert(all.subrange(n as int, n as int) =~= Seq::<(Seq<u8>, LogData)>::empty());
            }
            lemma_extend(added, added, total);
        }
        match failure {
            Some(err) => Err(err),
            None => Ok(()),
        }
    }

    /// Ends the run and hands out the records found.
    pub fn finish(self) -> (r: Vec<QueryResponse>)
        ensures
            hit_views(r@) == self.hits(),
    {
        self.response
    }
}

/// The entries of several partitions as plain values.
pub open spec fn part_views(parts: Seq<Vec<(Vec<u8>, LogData)>>) -> Seq<Seq<(Seq<u8>, LogData)>> {
    Seq::new(parts.len(), |i: int| entry_views(parts[i]@))
}

/// What reading the partitions one after the other returns, each with its
/// entries, when `found` results were found before. The results of one
/// partition count towards the limit of the next; a failure ends the query.
pub open spec fn scan_all(
    trees: Seq<TreeNameView>,
    parts: Seq<Seq<(Seq<u8>, LogData)>>,
    f: Filter,
    lo: u128,
    hi: u128,
    found: int,
) -> Scan
    decreases trees.len(),
{
    if trees.len() == 0 || parts.len() == 0 {
        Scan::Hits(Seq::empty())
    } else {
        match scan(trees[0], parts[0], f, lo, hi, found) {
            Scan::Hits(h) => extend(
                h,
                scan_all(trees.drop_first(), parts.drop_first(), f, lo, hi, found + h.len()),
            ),
            Scan::BadKey(n) => Scan::BadKey(n),
        }
    }
}

/// Runs a plan over what the partitions hold: `partitions` gives, for each
/// partition of the plan in turn, its entries in the order of their keys.
pub fn run_query(plan: QueryPlan, partitions: Vec<Vec<(Vec<u8>, LogData)>>) -> (r: Result<
    Vec<QueryResponse>,
    Error,
>)
    ensures
        match scan_all(
            tree_views(plan.trees@),
            part_views(partitions@),
            plan.filter(),
            plan.start,
            plan.end,
            0,
        ) {
            Scan::Hits(h) => r matches Ok(response) && hit_views(response@) == h,
            Scan::BadKey(n) => r == Err::<Vec<QueryResponse>, Error>(
                Error::InvalidLengthBytesForUlid(n),
            ),
        },
{
    let ghost trees = tree_views(plan.trees@);
    let ghost parts = part_views(partitions@);
    let ghost f = plan.filter();
    let ghost total = scan_all(trees, parts, f, plan.start, plan.end, 0);
    let n = partitions.len();
    let mut stack = reversed(partitions);
    let mut run = QueryScan::new(plan);
    let mut i: usize = 0;
    proof {
        assert(trees.subrange(0, trees.len() as int) =~= trees);
        assert(parts.subrange(0, n as int) =~= parts);
        lemma_extend(run.hits(), run.hits(), total);
    }
    while i < run.trees().len() && stack.len() > 0
        invariant
            run.plan() == plan,
            trees == tree_views(plan.trees@),
            parts == part_views(partitions@),
            f == plan.filter(),
            total == scan_all(trees, parts, f, plan.start, plan.end, 0),
            i <= trees.len(),
            i + stack@.len() == n,
            n == parts.len(),
            forall|k: int|
                0 <= k < stack@.len() ==> entry_views(#[trigger] stack@[k]@) == parts[n - 1 - k],
            total == extend(
                run.hits(),
                scan_all(
                    trees.subrange(i as int, trees.len() as int),
                    parts.subrange(i as int, n as int),
                    f,
                    plan.start,
                    plan.end,
                    run.hits().len() as int,
                ),
            ),
        decreases stack@.len(),
    {
        let ghost before = run.hits();
        let ghost tail_trees = trees.subrange(i as int, trees.len() as int);
        let ghost tail_parts = parts.subrange(i as int, n as int);
        let tree = run.trees()[i].clone();
        let entries = stack.pop().unwrap();
        proof {
            assert(tail_trees[0] == tree@);
            assert(tail_parts[0] == entry_views(entries@));
            assert(tail_trees.drop_first() =~= trees.subrange(i + 1, trees.len() as int));
            assert(tail_parts.drop_first() =~= parts.subrange(i + 1, n as int));
        }
        match run.scan_entries(&tree, entries) {
            Ok(()) => {
                proof {
                    let h = scan(
                        tree@,
                        tail_parts[0],
                        f,
                        plan.start,
                        plan.end,
                        before.len() as int,
                    )->Hits_0;
                    lemma_extend(
                        before,
                        h,
                        scan_all(
                            trees.subrange(i + 1, trees.len() as int),
                            parts.subrange(i + 1, n as int),
                            f,
                            plan.start,
                            plan.end,
                            (before.len() + h.len()) as int,
                        ),
                    );
                }
            },
            Err(e) => {
                proof {
                    let failed = scan(
                        tree@,
                        tail_parts[0],
                        f,
                        plan.start,
                        plan.end,
                        before.len() as int,
                    );
                    assert(scan_all(
                        tail_trees,
                        tail_parts,
                        f,
                        plan.start,
                        plan.end,
                        before.len() as int,
                    ) == failed);
                }
                return Err(e);
            },
        }
        i = i + 1;
    }
    proof {
        lemma_extend(run.hits(), run.hits(), total);
    }
    Ok(run.finish())
}

/// A byte string does not come after itself.
pub proof fn lemma_lex_le_same(a: Seq<u8>)
    ensures
        lex_le(a, a),
    decreases a.len(),
{
    if a.len() > 0 {
        lemma_lex_le_same(a.drop_first());
    }
}

/// Of two byte strings of one length, the one with the smaller byte where
/// they first differ comes first, and not the other way round.
pub proof fn lemma_bytes_lt_is_lex(a: Seq<u8>, b: Seq<u8>)
    requires
        a.len() == b.len(),
        bytes_lt(a, b),
    ensures
        lex_le(a, b),
        !lex_le(b, a),
    decreases a.len(),
{
    let i = choose|i: int|
        0 <= i < a.len() && i < b.len() && a.subrange(0, i) == b.subrange(0, i) && a[i] < b[i];
    if i > 0 {
        assert(a[0] == a.subrange(0, i)[0]);
        assert(b[0] == b.subrange(0, i)[0]);
        let x = a.drop_first();
        let y = b.drop_first();
        assert(x.subrange(0, i - 1) =~= a.subrange(0, i).drop_first());
        assert(y.subrange(0, i - 1) =~= b.subrange(0, i).drop_first());
        assert(x[i - 1] < y[i - 1]);
        lemma_bytes_lt_is_lex(x, y);
    }
}

/// What does not come after a second byte string that does not come after a
/// third does not come after the third.
pub proof fn lemma_lex_le_chain(a: Seq<u8>, b: Seq<u8>, c: Seq<u8>)
    requires
        lex_le(a, b),
        lex_le(b, c),
    ensures
        lex_le(a, c),
    decreases a.len(),
{
    if a.len() > 0 && b.len() > 0 && c.len() > 0 && a[0] == b[0] && b[0] == c[0] {
        lemma_lex_le_chain(a.drop_first(), b.drop_first(), c.drop_first());
    }
}

/// The order of keys is the order of the identifiers.
pub proof fn lemma_key_le(x: u128, y: u128)
    ensures
        lex_le(key_of(x), key_of(y)) <==> x <= y,
{
    if x < y {
        lemma_key_order(x, y);
        lemma_bytes_lt_is_lex(key_of(x), key_of(y));
    } else if y < x {
        lemma_key_order(y, x);
        lemma_bytes_lt_is_lex(key_of(y), key_of(x));
    } else {
        lemma_lex_le_same(key_of(x));
    }
}

/// A key of 16 bytes lies between the keys of two identifiers if and only if
/// its identifier lies between them.
pub proof fn lemma_key_range(key: Seq<u8>, lo: u128, hi: u128)
    requires
        key.len() == 16,
    ensures
        be_value(key) <= u128::MAX,
        key_in_range(key, lo, hi) <==> lo <= be_value(key) <= hi,
{
    lemma_be_value_bound(key);
    lemma_pow256_16();
    lemma_bytes_of_be_value(key);
    let id = be_value(key) as u128;
    assert(key_of(id) == key);
    lemma_key_le(lo, id);
    lemma_key_le(id, hi);
}

/// No key lies between a lower bound and an upper bound below it.
pub proof fn lemma_empty_range(key: Seq<u8>, lo: u128, hi: u128)
    requires
        lo > hi,
    ensures
        !key_in_range(key, lo, hi),
{
    if key_in_range(key, lo, hi) {
        lemma_lex_le_chain(key_of(lo), key, key_of(hi));
        lemma_key_le(lo, hi);
    }
}

/// The keys that a query reads are those of its span of time: an identifier
/// lies between the bounds of the query if and only if its timestamp is not
/// before the start and not after the end, where they are set.
pub proof fn lemma_range_is_time_span(params: QueryParams, id: u128)
    requires
        params.start_timestamp matches Some(t) ==> t.wf(),
        params.end_timestamp matches Some(t) ==> t.wf(),
    ensures
        0 <= start_of(params) <= u128::MAX,
        0 <= end_of(params) <= u128::MAX,
        key_in_range(key_of(id), start_of(params) as u128, end_of(params) as u128) <==> {
            &&& params.start_timestamp matches Some(t) ==> t@ <= time_of(id)
            &&& params.end_timestamp matches Some(t) ==> time_of(id) <= t@
        },
{
    lemma_pow256_16();
    lemma_be_value_of_bytes(id as nat, 16);
    lemma_key_range(key_of(id), start_of(params) as u128, end_of(params) as u128);
}

/// With a limit set, a partition is left as soon as more results are found
/// than the limit: the results never exceed the limit by more than one.
pub proof fn lemma_scan_bound(
    tree: TreeNameView,
    entries: Seq<(Seq<u8>, LogData)>,
    f: Filter,
    lo: u128,
    hi: u128,
    found: int,
)
    requires
        f.max is Some,
        0 <= found <= f.max->0 + 1,
    ensures
        scan(tree, entries, f, lo, hi, found) matches Scan::Hits(h) ==> found + h.len()
            <= f.max->0 + 1,
    decreases entries.len(),
{
    if entries.len() == 0 || limit_passed(f, found) {
    } else {
        let key = entries[0].0;
        let data = entries[0].1;
        let rest = entries.drop_first();
        if !key_in_range(key, lo, hi) || !keeps(f, data.message@) {
            lemma_scan_bound(tree, rest, f, lo, hi, found);
        } else if key.len() == 16 {
            lemma_scan_bound(tree, rest, f, lo, hi, found + 1);
        }
    }
}

/// With a limit set, a query over any number of partitions returns at most
/// one result more than the limit.
pub proof fn lemma_scan_all_bound(
    trees: Seq<TreeNameView>,
    parts: Seq<Seq<(Seq<u8>, LogData)>>,
    f: Filter,
    lo: u128,
    hi: u128,
    found: int,
)
    requires
        f.max is Some,
        0 <= found <= f.max->0 + 1,
    ensures
        scan_all(trees, parts, f, lo, hi, found) matches Scan::Hits(h) ==> found + h.len()
            <= f.max->0 + 1,
    decreases trees.len(),
{
    if trees.len() == 0 || parts.len() == 0 {
    } else {
        lemma_scan_bound(trees[0], parts[0], f, lo, hi, found);
        match scan(trees[0], parts[0], f, lo, hi, found) {
            Scan::Hits(h) => {
                lemma_scan_all_bound(
                    trees.drop_first(),
                    parts.drop_first(),
                    f,
                    lo,
                    hi,
                    found + h.len(),
                );
            },
            Scan::BadKey(n) => {},
        }
    }
}

/// A query without bounds, patterns and limit returns every entry of a
/// partition, one result for each entry and in their order: so what two
/// batches brought into a partition comes back as many results as both
/// batches hold entries.
pub proof fn lemma_full_scan(tree: TreeNameView, entries: Seq<(Seq<u8>, LogData)>, found: int)
    requires
        forall|i: int| 0 <= i < entries.len() ==> (#[trigger] entries[i]).0.len() == 16,
    ensures
        scan(
            tree,
            entries,
            Filter { must: None, must_not: None, max: None },
            0,
            u128::MAX,
            found,
        ) matches Scan::Hits(h) && h.len() == entries.len() && forall|i: int|
            0 <= i < entries.len() ==> #[trigger] h[i] == (Hit {
                tree,
                id: be_value(entries[i].0) as u128,
                data: entries[i].1,
            }),
    decreases entries.len(),
{
    let f = Filter { must: None, must_not: None, max: None };
    if entries.len() > 0 {
        let rest = entries.drop_first();
        lemma_key_range(entries[0].0, 0, u128::MAX);
        assert forall|i: int| 0 <= i < rest.len() implies (#[trigger] rest[i]).0.len() == 16 by {
            assert(rest[i] == entries[i + 1]);
        }
        lemma_full_scan(tree, rest, found + 1);
        let h = scan(tree, entries, f, 0, u128::MAX, found)->Hits_0;
        let t = scan(tree, rest, f, 0, u128::MAX, found + 1)->Hits_0;
        assert forall|i: int| 0 <= i < entries.len() implies #[trigger] h[i] == (Hit {
            tree,
            id: be_value(entries[i].0) as u128,
            data: entries[i].1,
        }) by {
            if i > 0 {
                assert(h[i] == t[i - 1]);
                assert(rest[i - 1] == entries[i]);
            }
        }
    }
}

/// What two batches without an identifier in common brought into an empty
/// partition, one after the other, comes back from a query without bounds,
/// patterns and limit as many results as both batches hold records.
pub proof fn lemma_two_batches(
    tree: TreeNameView,
    first: Seq<(u128, LogData)>,
    second: Seq<(u128, LogData)>,
)
    requires
        ids_rise(first),
        ids_rise(second),
        forall|i: int| 0 <= i < second.len() ==> !has_id(first, (#[trigger] second[i]).0),
    ensures
        scan(
            tree,
            stored(absorb(absorb(Seq::empty(), first), second)),
            Filter { must: None, must_not: None, max: None },
            0,
            u128::MAX,
            0,
        ) matches Scan::Hits(h) && h.len() == first.len() + second.len(),
{
    let empty = Seq::<(u128, LogData)>::empty();
    let one = absorb(empty, first);
    lemma_absorb(empty, first);
    assert forall|i: int| 0 <= i < second.len() implies !has_id(one, (#[trigger] second[i]).0) by {
        lemma_absorb_ids(empty, first, second[i].0);
    }
    lemma_absorb(one, second);
    lemma_stored_comes_back(tree, absorb(one, second));
}

/// What a batch brought into a partition comes back from a query without
/// bounds, patterns and limit: each record as it was, under its identifier,
/// in the order of the identifiers.
pub proof fn lemma_stored_comes_back(tree: TreeNameView, batch: Seq<(u128, LogData)>)
    ensures
        scan(
            tree,
            stored(batch),
            Filter { must: None, must_not: None, max: None },
            0,
            u128::MAX,
            0,
        ) matches Scan::Hits(h) && h.len() == batch.len() && forall|i: int|
            0 <= i < batch.len() ==> #[trigger] h[i] == (Hit {
                tree,
                id: batch[i].0,
                data: batch[i].1,
            }),
{
    let entries = stored(batch);
    lemma_pow256_16();
    assert forall|i: int| 0 <= i < entries.len() implies (#[trigger] entries[i]).0.len() == 16 by {
        lemma_be_value_of_bytes(batch[i].0 as nat, 16);
    }
    lemma_full_scan(tree, entries, 0);
    let h = scan(
        tree,
        entries,
        Filter { must: None, must_not: None, max: None },
        0,
        u128::MAX,
        0,
    )->Hits_0;
    assert forall|i: int| 0 <= i < batch.len() implies #[trigger] h[i] == (Hit {
        tree,
        id: batch[i].0,
        data: batch[i].1,
    }) by {
        lemma_be_value_of_bytes(batch[i].0 as nat, 16);
        assert(entries[i].0 == key_of(batch[i].0));
    }
}

} // verus!
