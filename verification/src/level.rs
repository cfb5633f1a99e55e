//! Severities, their weights and their lowercase names.

use vstd::prelude::*;
use vstd::string::*;

verus! {

/// The severity of a record. A lower weight is more significant.
#[derive(Clone, Copy, Debug, PartialEq, Eq, Structural, PartialOrd, Ord, Hash)]
pub enum Level {
    Error,
    Warn,
    Info,
    Debug,
    Trace,
}

/// The ASCII lowercase form of one byte.
pub open spec fn lower_byte(b: u8) -> u8 {
    if 65 <= b <= 90 {
        (b + 32) as u8
    } else {
        b
    }
}

/// The ASCII lowercase form of a byte string.
pub open spec fn lower_bytes(s: Seq<u8>) -> Seq<u8> {
    Seq::new(s.len(), |i: int| lower_byte(s[i]))
}

/// The severity that a byte string names, whatever the case of its letters.
pub open spec fn level_of_bytes(s: Seq<u8>) -> Option<Level> {
    let l = lower_bytes(s);
    if l == Level::Error.name_bytes() {
        Some(Level::Error)
    } else if l == Level::Warn.name_bytes() {
        Some(Level::Warn)
    } else if l == Level::Info.name_bytes() {
        Some(Level::Info)
    } else if l == Level::Debug.name_bytes() {
        Some(Level::Debug)
    } else if l == Level::Trace.name_bytes() {
        Some(Level::Trace)
    } else {
        None
    }
}

/// The five severities from the least significant to the most significant.
pub open spec fn all_levels() -> Seq<Level> {
    seq![Level::Trace, Level::Debug, Level::Info, Level::Warn, Level::Error]
}

/// The severities in shipping order: the most significant first.
pub open spec fn levels_by_weight() -> Seq<Level> {
    seq![Level::Error, Level::Warn, Level::Info, Level::Debug, Level::Trace]
}

/// The severities that are at least as significant as `max`, by rising weight.
pub open spec fn levels_up_to(max: Level) -> Seq<Level> {
    levels_by_weight().subrange(0, max.weight() + 1)
}

/// Lowers one byte to ASCII lowercase.
pub fn to_lower_byte(b: u8) -> (r: u8)
    ensures
        r == lower_byte(b),
{
    if 65 <= b && b <= 90 {
        b + 32
    } else {
        b
    }
}

/// Tells whether `s`, lowered to ASCII lowercase, is `name`.
pub fn lowered_equals(s: &[u8], name: &[u8]) -> (r: bool)
    ensures
        r == (lower_bytes(s@) == name@),
{
    if s.len() != name.len() {
        return false;
    }
    let mut i: usize = 0;
    while i < s.len()
        invariant
            i <= s.len(),
            s.len() == name.len(),
            forall|j: int| 0 <= j < i ==> lower_byte(s@[j]) == name@[j],
        decreases s.len() - i,
    {
        if to_lower_byte(s[i]) != name[i] {
            assert(lower_bytes(s@)[i as int] != name@[i as int]);
            return false;
        }
        i = i + 1;
    }
    assert(lower_bytes(s@) =~= name@);
    true
}

impl Level {
    /// The weight of the severity: 0 for `Error` up to 4 for `Trace`.
    pub open spec fn weight(self) -> int {
        match self {
            Level::Error => 0,
            Level::Warn => 1,
            Level::Info => 2,
            Level::Debug => 3,
            Level::Trace => 4,
        }
    }

    /// The lowercase name as text.
    pub open spec fn name(self) -> Seq<char> {
        match self {
            Level::Error => seq!['e', 'r', 'r', 'o', 'r'],
            Level::Warn => seq!['w', 'a', 'r', 'n'],
            Level::Info => seq!['i', 'n', 'f', 'o'],
            Level::Debug => seq!['d', 'e', 'b', 'u', 'g'],
            Level::Trace => seq!['t', 'r', 'a', 'c', 'e'],
        }
    }

    /// The lowercase name as bytes.
    pub open spec fn name_bytes(self) -> Seq<u8> {
        match self {
            Level::Error => seq![101u8, 114u8, 114u8, 111u8, 114u8],
            Level::Warn => seq![119u8, 97u8, 114u8, 110u8],
            Level::Info => seq![105u8, 110u8, 102u8, 111u8],
            Level::Debug => seq![100u8, 101u8, 98u8, 117u8, 103u8],
            Level::Trace => seq![116u8, 114u8, 97u8, 99u8, 101u8],
        }
    }

    /// The weight as a number.
    pub fn rank(&self) -> (r: u8)
        ensures
            r == self.weight(),
    {
        match self {
            Level::Error => 0,
            Level::Warn => 1,
            Level::Info => 2,
            Level::Debug => 3,
            Level::Trace => 4,
        }
    }

    /// Tells whether `self` is at least as significant as `max`.
    pub fn at_most(&self, max: &Level) -> (r: bool)
        ensures
            r == (self.weight() <= max.weight()),
    {
        self.rank() <= max.rank()
    }

    /// The lowercase name.
    pub fn as_str(&self) -> (r: &'static str)
        ensures
            r@ == self.name(),
            r.is_ascii(),
    {
        match self {
            Level::Error => {
                proof {
                    reveal_strlit("error");
                }
                assert("error"@ =~= self.name());
                "error"
            },
            Level::Warn => {
                proof {
                    reveal_strlit("warn");
                }
                assert("warn"@ =~= self.name());
                "warn"
            },
            Level::Info => {
                proof {
                    reveal_strlit("info");
                }
                assert("info"@ =~= self.name());
                "info"
            },
            Level::Debug => {
                proof {
                    reveal_strlit("debug");
                }
                assert("debug"@ =~= self.name());
                "debug"
            },
            Level::Trace => {
                proof {
                    reveal_strlit("trace");
                }
                assert("trace"@ =~= self.name());
                "trace"
            },
        }
    }

    /// The five severities, from `Trace` to `Error`.
    pub fn all() -> (r: Vec<Level>)
        ensures
            r@ == all_levels(),
    {
        let mut v: Vec<Level> = Vec::new();
        v.push(Level::Trace);
        v.push(Level::Debug);
        v.push(Level::Info);
        v.push(Level::Warn);
        v.push(Level::Error);
        assert(v@ =~= all_levels());
        v
    }

    /// The five severities in shipping order, from `Error` to `Trace`.
    pub fn by_weight() -> (r: Vec<Level>)
        ensures
            r@ == levels_by_weight(),
    {
        let mut v: Vec<Level> = Vec::new();
        v.push(Level::Error);
        v.push(Level::Warn);
        v.push(Level::Info);
        v.push(Level::Debug);
        v.push(Level::Trace);
        assert(v@ =~= levels_by_weight());
        v
    }

    /// The severities whose weight is at most that of `max_level`, by rising
    /// weight and each once.
    pub fn get_levels(max_level: Level) -> (r: Vec<Level>)
        ensures
            r@ == levels_up_to(max_level),
            forall|l: Level| r@.contains(l) <==> l.weight() <= max_level.weight(),
            forall|i: int, j: int| 0 <= i < j < r@.len() ==> r@[i].weight() < r@[j].weight(),
    {
        let every = Level::by_weight();
        let mut v: Vec<Level> = Vec::new();
        let mut i: usize = 0;
        while i < every.len()
            invariant
                i <= every.len(),
                every@ == levels_by_weight(),
                v@ == every@.subrange(0, if i <= max_level.weight() + 1 {
                    i as int
                } else {
                    max_level.weight() + 1
                }),
            decreases every.len() - i,
        {
            if every[i].at_most(&max_level) {
                v.push(every[i]);
            }
            i = i + 1;
            assert(v@ =~= every@.subrange(0, if i <= max_level.weight() + 1 {
                i as int
            } else {
                max_level.weight() + 1
            }));
        }
        proof {
            let r = v@;
            assert forall|l: Level| r.contains(l) <==> l.weight() <= max_level.weight() by {
                if l.weight() <= max_level.weight() {
                    assert(r[l.weight()] == l);
                }
            }
        }
        v
    }

    /// Reads a severity from its name, whatever the case of its letters.
    pub fn from_bytes(s: &[u8]) -> (r: Option<Level>)
        ensures
            r == level_of_bytes(s@),
    {
        let error: [u8; 5] = [101, 114, 114, 111, 114];
        let warn: [u8; 4] = [119, 97, 114, 110];
        let info: [u8; 4] = [105, 110, 102, 111];
        let debug: [u8; 5] = [100, 101, 98, 117, 103];
        let trace: [u8; 5] = [116, 114, 97, 99, 101];
        assert(error@ =~= Level::Error.name_bytes());
        assert(warn@ =~= Level::Warn.name_bytes());
        assert(info@ =~= Level::Info.name_bytes());
        assert(debug@ =~= Level::Debug.name_bytes());
        assert(trace@ =~= Level::Trace.name_bytes());
        if lowered_equals(s, error.as_slice()) {
            Some(Level::Error)
        } else if lowered_equals(s, warn.as_slice()) {
            Some(Level::Warn)
        } else if lowered_equals(s, info.as_slice()) {
            Some(Level::Info)
        } else if lowered_equals(s, debug.as_slice()) {
            Some(Level::Debug)
        } else if lowered_equals(s, trace.as_slice()) {
            Some(Level::Trace)
        } else {
            None
        }
    }
}

/// The lowercase form that `str::to_lowercase` gives a text.
pub uninterp spec fn lowercase_of(s: Seq<char>) -> Seq<char>;

/// `str::to_lowercase`: the text with each character in its lowercase form.
#[verifier::external_body]
fn to_lowercase(s: &str) -> (r: String)
    ensures
        r@ == lowercase_of(s@),
{
    s.to_lowercase()
}

/// What a text that names no severity is told.
pub open spec fn level_error_text(s: Seq<char>) -> Seq<char> {
    "Unexpected logging level `"@ + lowercase_of(s) + "`"@
}

impl Level {
    /// Reads a severity from its name, whatever the case of its letters. A
    /// text that names no severity is refused with its lowercase form.
    pub fn parse(s: &str) -> (r: Result<Level, String>)
        ensures
            match level_of_bytes(s.spec_bytes()) {
                Some(l) => r == Ok::<Level, String>(l),
                None => r matches Err(e) && e@ == level_error_text(s@),
            },
    {
        match Level::from_bytes(s.as_bytes()) {
            Some(l) => Ok(l),
            None => {
                let lower = to_lowercase(s);
                let text = String::from_str("Unexpected logging level `");
                Err(text.concat(lower.as_str()).concat("`"))
            },
        }
    }

    /// Tells whether a record of this severity passes a filter that lets
    /// through everything up to `max`, or nothing where `max` is `None`.
    pub fn enabled(&self, max: Option<Level>) -> (r: bool)
        ensures
            r == (max matches Some(m) && self.weight() <= m.weight()),
    {
        match max {
            Some(m) => self.at_most(&m),
            None => false,
        }
    }
}

/// A severity is read from a text as `Level::parse` reads it.
impl std::str::FromStr for Level {
    type Err = String;

    fn from_str(s: &str) -> (r: Result<Level, String>)
        ensures
            match level_of_bytes(s.spec_bytes()) {
                Some(l) => r == Ok::<Level, String>(l),
                None => r matches Err(e) && e@ == level_error_text(s@),
            },
    {
        Level::parse(s)
    }
}

} // verus!
