//! The names of partitions.
//!
//! A partition holds the records of one host, one application and one
//! severity. Its name is `{host}-{app}-{severity}`, the severity in lowercase.

use vstd::prelude::*;
use vstd::slice::*;
use vstd::string::*;
use crate::error::Error;
use crate::identity::{App, Host};
use crate::level::{level_of_bytes, lower_bytes, Level};
use crate::text::{bytes_of, chars_of, is_label, is_label_bytes, lemma_label_is_ascii};

verus! {

/// The byte that separates the parts of a name.
pub const DASH: u8 = 45;

/// The partition that a name stands for.
pub struct TreeName {
    host: Host,
    app: App,
    level: Level,
}

/// A partition as plain values.
pub struct TreeNameView {
    pub host: Seq<char>,
    pub app: Seq<char>,
    pub level: Level,
}

/// The place of the first separator at or after `from`, or the length of `s`
/// where there is none.
pub open spec fn dash_at(s: Seq<u8>, from: int) -> int
    decreases s.len() - from,
{
    if from < 0 || from >= s.len() {
        s.len() as int
    } else if s[from] == DASH {
        from
    } else {
        dash_at(s, from + 1)
    }
}

/// The partition that the bytes name: the bytes hold exactly two separators,
/// before the first stands a host, between them an application, after the
/// second a severity in any case.
pub open spec fn parse_tree_name(b: Seq<u8>) -> Option<TreeNameView> {
    let n = b.len() as int;
    let i = dash_at(b, 0);
    let j = dash_at(b, i + 1);
    if i < n && j < n && dash_at(b, j + 1) == n && is_label_bytes(b.subrange(0, i))
        && is_label_bytes(b.subrange(i + 1, j)) && level_of_bytes(b.subrange(j + 1, n)) is Some {
        Some(
            TreeNameView {
                host: chars_of(b.subrange(0, i)),
                app: chars_of(b.subrange(i + 1, j)),
                level: level_of_bytes(b.subrange(j + 1, n))->0,
            },
        )
    } else {
        None
    }
}

/// The name of a partition.
pub open spec fn tree_name_text(host: Seq<char>, app: Seq<char>, level: Level) -> Seq<char> {
    host + seq!['-'] + app + seq!['-'] + level.name()
}

/// Where no separator stands from `from` up to `k`, and one stands at `k` or
/// `k` is the end, `k` is the place of the first separator.
pub proof fn lemma_dash_at(s: Seq<u8>, from: int, k: int)
    requires
        0 <= from <= k <= s.len(),
        forall|m: int| from <= m < k ==> s[m] != DASH,
        k == s.len() || s[k] == DASH,
    ensures
        dash_at(s, from) == k,
    decreases k - from,
{
    if from < k {
        lemma_dash_at(s, from + 1, k);
    }
}

/// The name of a severity holds its letters and nothing else, and reads
/// back as that severity.
pub proof fn lemma_level_name(level: Level)
    ensures
        bytes_of(level.name()) == level.name_bytes(),
        level_of_bytes(level.name_bytes()) == Some(level),
        forall|i: int| 0 <= i < level.name_bytes().len() ==> level.name_bytes()[i] != DASH,
        vstd::utf8::is_ascii_chars(level.name()),
{
    assert(bytes_of(level.name()) =~= level.name_bytes());
    assert(lower_bytes(level.name_bytes()) =~= level.name_bytes());
    assert(Level::Error.name_bytes().len() == 5);
    assert(Level::Warn.name_bytes().len() == 4);
    assert(Level::Info.name_bytes()[0] != Level::Warn.name_bytes()[0]);
    assert(Level::Debug.name_bytes()[0] != Level::Error.name_bytes()[0]);
    assert(Level::Trace.name_bytes()[0] != Level::Error.name_bytes()[0]);
    assert(Level::Trace.name_bytes()[0] != Level::Debug.name_bytes()[0]);
}

/// A partition's name reads back as the partition: for every host, every
/// application and every severity, parsing the name gives the three again.
pub proof fn lemma_name_round_trip(host: Seq<char>, app: Seq<char>, level: Level)
    requires
        is_label(host),
        is_label(app),
    ensures
        parse_tree_name(bytes_of(tree_name_text(host, app, level))) == Some(
            TreeNameView { host, app, level },
        ),
{
    let text = tree_name_text(host, app, level);
    let b = bytes_of(text);
    let n = b.len() as int;
    let i = host.len() as int;
    let j = i + 1 + app.len();
    lemma_label_is_ascii(host);
    lemma_label_is_ascii(app);
    lemma_level_name(level);
    assert(b.subrange(0, i) =~= bytes_of(host));
    assert(b.subrange(i + 1, j) =~= bytes_of(app));
    assert(b.subrange(j + 1, n) =~= level.name_bytes()) by {
        assert(bytes_of(level.name()) == level.name_bytes());
        assert forall|k: int| 0 <= k < n - j - 1 implies b[j + 1 + k] == level.name_bytes()[k] by {
            assert(text[j + 1 + k] == level.name()[k]);
        }
    }
    assert(b[i] == DASH);
    assert(b[j] == DASH);
    assert forall|m: int| 0 <= m < i implies b[m] != DASH by {
        assert(crate::text::is_alnum_byte(bytes_of(host)[m]));
        assert(b[m] == b.subrange(0, i)[m]);
    }
    assert forall|m: int| i + 1 <= m < j implies b[m] != DASH by {
        assert(crate::text::is_alnum_byte(bytes_of(app)[m - i - 1]));
        assert(b[m] == b.subrange(i + 1, j)[m - i - 1]);
    }
    assert forall|m: int| j + 1 <= m < n implies b[m] != DASH by {
        assert(b[m] == b.subrange(j + 1, n)[m - j - 1]);
    }
    lemma_dash_at(b, 0, i);
    lemma_dash_at(b, i + 1, j);
    lemma_dash_at(b, j + 1, n);
    assert(chars_of(bytes_of(host)) == host);
    assert(chars_of(bytes_of(app)) == app);
}

/// The place of the first separator at or after `from`.
pub fn find_dash(b: &[u8], from: usize) -> (k: usize)
    requires
        from <= b@.len(),
    ensures
        k == dash_at(b@, from as int),
        from <= k <= b@.len(),
{
    let mut k: usize = from;
    while k < b.len() && b[k] != DASH
        invariant
            from <= k <= b@.len(),
            dash_at(b@, from as int) == dash_at(b@, k as int),
        decreases b@.len() - k,
    {
        k = k + 1;
    }
    k
}

impl View for TreeName {
    type V = TreeNameView;

    closed spec fn view(&self) -> TreeNameView {
        TreeNameView { host: self.host@, app: self.app@, level: self.level }
    }
}

impl Level {
    /// The name of the partition of this severity for a host and an
    /// application.
    pub fn get_tree_name(&self, hostname: &Host, application: &App) -> (r: String)
        ensures
            r@ == tree_name_text(hostname@, application@, *self),
            r.is_ascii(),
    {
        let h = hostname.as_str();
        let a = application.as_str();
        let l = self.as_str();
        proof {
            reveal_strlit("-");
            lemma_label_is_ascii(h@);
            lemma_label_is_ascii(a@);
            assert("-"@ =~= seq!['-']);
        }
        let r = String::from_str(h).concat("-").concat(a).concat("-").concat(l);
        assert(r@ =~= tree_name_text(hostname@, application@, *self));
        assert(r.is_ascii()) by {
            assert forall|i: int| 0 <= i < r@.len() implies '\0' <= #[trigger] r@[i]
                <= '\u{7f}' by {
                if i < h@.len() {
                    assert(r@[i] == h@[i]);
                } else if i == h@.len() {
                } else if i < h@.len() + 1 + a@.len() {
                    assert(r@[i] == a@[i - h@.len() - 1]);
                } else if i == h@.len() + 1 + a@.len() {
                } else {
                    assert(r@[i] == l@[i - h@.len() - a@.len() - 2]);
                }
            }
        }
        r
    }
}

impl TreeName {
    /// The partition of a host, an application and a severity.
    pub fn new(host: Host, app: App, level: Level) -> (r: TreeName)
        ensures
            r@ == (TreeNameView { host: host@, app: app@, level }),
    {
        TreeName { host, app, level }
    }

    /// Reads the name of a partition. The bytes are accepted if and only if
    /// they hold exactly two separators with a host before the first, an
    /// application between them and a severity after the second; otherwise
    /// the error carries the bytes.
    pub fn from_bytes(bytes: &[u8]) -> (r: Result<TreeName, Error>)
        ensures
            match parse_tree_name(bytes@) {
                Some(t) => r matches Ok(name) && name@ == t,
                None => r matches Err(Error::ParseTreeNameFromBytes(b)) && b@ == bytes@,
            },
    {
        let n = bytes.len();
        let i = find_dash(bytes, 0);
        if i >= n {
            return Err(Error::ParseTreeNameFromBytes(slice_to_vec(bytes)));
        }
        let j = find_dash(bytes, i + 1);
        if j >= n {
            return Err(Error::ParseTreeNameFromBytes(slice_to_vec(bytes)));
        }
        let k = find_dash(bytes, j + 1);
        if k < n {
            return Err(Error::ParseTreeNameFromBytes(slice_to_vec(bytes)));
        }
        let host = Host::from_bytes(slice_subrange(bytes, 0, i));
        let app = App::from_bytes(slice_subrange(bytes, i + 1, j));
        let level = Level::from_bytes(slice_subrange(bytes, j + 1, n));
        match (host, app, level) {
            (Some(host), Some(app), Some(level)) => Ok(TreeName { host, app, level }),
            _ => Err(Error::ParseTreeNameFromBytes(slice_to_vec(bytes))),
        }
    }

    /// The host.
    pub fn host(&self) -> (r: &Host)
        ensures
            r@ == self@.host,
    {
        &self.host
    }

    /// The application.
    pub fn app(&self) -> (r: &App)
        ensures
            r@ == self@.app,
    {
        &self.app
    }

    /// The severity.
    pub fn level(&self) -> (r: Level)
        ensures
            r == self@.level,
    {
        self.level
    }

    /// The name of the partition.
    pub fn to_string(&self) -> (r: String)
        ensures
            r@ == tree_name_text(self@.host, self@.app, self@.level),
            r.is_ascii(),
    {
        self.level.get_tree_name(&self.host, &self.app)
    }
}

/// A partition is copied with its three parts.
impl Clone for TreeName {
    fn clone(&self) -> (r: Self)
        ensures
            r@ == self@,
    {
        TreeName { host: self.host.clone(), app: self.app.clone(), level: self.level }
    }
}

/// The names of the partitions of a host and an application, one for each
/// severity from `Trace` to `Error`: what a flush of the pair has to reach.
pub fn flush_trees(host: &Host, app: &App) -> (r: Vec<String>)
    ensures
        r@.len() == crate::level::all_levels().len(),
        forall|i: int|
            0 <= i < r@.len() ==> (#[trigger] r@[i])@ == tree_name_text(
                host@,
                app@,
                crate::level::all_levels()[i],
            ),
{
    let levels = Level::all();
    let mut out: Vec<String> = Vec::new();
    let mut i: usize = 0;
    while i < levels.len()
        invariant
            i <= levels@.len(),
            levels@ == crate::level::all_levels(),
            out@.len() == i,
            forall|k: int|
                0 <= k < i ==> (#[trigger] out@[k])@ == tree_name_text(host@, app@, levels@[k]),
        decreases levels@.len() - i,
    {
        out.push(levels[i].get_tree_name(host, app));
        i = i + 1;
    }
    out
}

} // verus!
