//! The identity labels of a partition: the host and the application.

use vstd::prelude::*;
use vstd::string::*;
use crate::text::{
    chars_of, is_label, is_label_bytes, label_bytes, label_text, lemma_ascii_round_trip,
    lossy_text,
};

verus! {

/// The name of a host: one or more characters, each a digit or an ASCII
/// letter. The case of the letters counts.
#[derive(Debug)]
pub struct Host {
    name: String,
}

/// Why a text is no host name.
#[derive(Debug)]
pub struct HostParseError {
    msg: String,
}

/// The name of an application: one or more characters, each a digit or an
/// ASCII letter. The case of the letters counts.
#[derive(Debug)]
pub struct App {
    name: String,
}

/// Why a text is no application name.
#[derive(Debug)]
pub struct AppParseError {
    msg: String,
}

/// What a rejected host name is told.
pub open spec fn host_error_text(s: Seq<char>) -> Seq<char> {
    "Host name `"@ + s + "` contains characters outisde the range of `[A-Za-z0-9]`"@
}

/// What a rejected application name is told.
pub open spec fn app_error_text(s: Seq<char>) -> Seq<char> {
    "App name `"@ + s + "` contains characters outisde the range of `[A-Za-z0-9]`"@
}

impl View for Host {
    type V = Seq<char>;

    closed spec fn view(&self) -> Seq<char> {
        self.name@
    }
}

impl View for App {
    type V = Seq<char>;

    closed spec fn view(&self) -> Seq<char> {
        self.name@
    }
}

impl View for HostParseError {
    type V = Seq<char>;

    closed spec fn view(&self) -> Seq<char> {
        self.msg@
    }
}

impl View for AppParseError {
    type V = Seq<char>;

    closed spec fn view(&self) -> Seq<char> {
        self.msg@
    }
}

impl Host {
    /// Every name that a program holds is a label.
    #[verifier::type_invariant]
    spec fn inv(self) -> bool {
        is_label(self.name@)
    }

    /// Reads a host name: accepted if and only if the text is a label.
    pub fn parse(s: &str) -> (r: Result<Host, HostParseError>)
        ensures
            r is Ok <==> is_label(s@),
            r matches Ok(h) ==> h@ == s@,
            r matches Err(e) ==> e@ == host_error_text(s@),
    {
        if label_text(s) {
            Ok(Host { name: s.to_owned() })
        } else {
            let msg = String::from_str("Host name `").concat(s).concat(
                "` contains characters outisde the range of `[A-Za-z0-9]`",
            );
            Err(HostParseError { msg })
        }
    }

    /// Reads a name from bytes: accepted if and only if the bytes are a label.
    pub fn from_bytes(b: &[u8]) -> (r: Option<Host>)
        ensures
            r is Some <==> is_label_bytes(b@),
            r matches Some(x) ==> x@ == chars_of(b@),
    {
        if label_bytes(b) {
            proof {
                assert forall|i: int| 0 <= i < b@.len() implies #[trigger] b@[i] < 128 by {
                    assert(crate::text::is_alnum_byte(b@[i]));
                }
                lemma_ascii_round_trip(b@);
            }
            Some(Host { name: lossy_text(b) })
        } else {
            None
        }
    }

    /// The name.
    pub fn as_str(&self) -> (r: &str)
        ensures
            r@ == self@,
            is_label(self@),
    {
        proof {
            use_type_invariant(self);
        }
        self.name.as_str()
    }

    /// The name, as a text of its own.
    pub fn to_text(&self) -> (r: String)
        ensures
            r@ == self@,
            is_label(self@),
    {
        proof {
            use_type_invariant(self);
        }
        self.name.clone()
    }
}

/// A host name is copied with its text.
impl Clone for Host {
    fn clone(&self) -> (r: Self)
        ensures
            r@ == self@,
    {
        proof {
            use_type_invariant(self);
        }
        Host { name: self.name.clone() }
    }
}

/// A host name is read from a text as `Host::parse` reads it.
impl std::str::FromStr for Host {
    type Err = HostParseError;

    fn from_str(s: &str) -> (r: Result<Host, HostParseError>)
        ensures
            r is Ok <==> is_label(s@),
            r matches Ok(h) ==> h@ == s@,
            r matches Err(e) ==> e@ == host_error_text(s@),
    {
        Host::parse(s)
    }
}

impl HostParseError {
    /// What went wrong.
    pub fn message(&self) -> (r: String)
        ensures
            r@ == "host parse error: "@ + self@,
    {
        String::from_str("host parse error: ").concat(self.msg.as_str())
    }
}

/// The reason is copied with its text.
impl Clone for HostParseError {
    fn clone(&self) -> (r: Self)
        ensures
            r@ == self@,
    {
        HostParseError { msg: self.msg.clone() }
    }
}

impl App {
    /// Every name that a program holds is a label.
    #[verifier::type_invariant]
    spec fn inv(self) -> bool {
        is_label(self.name@)
    }

    /// Reads an application name: accepted if and only if the text is a label.
    pub fn parse(s: &str) -> (r: Result<App, AppParseError>)
        ensures
            r is Ok <==> is_label(s@),
            r matches Ok(a) ==> a@ == s@,
            r matches Err(e) ==> e@ == app_error_text(s@),
    {
        if label_text(s) {
            Ok(App { name: s.to_owned() })
        } else {
            let msg = String::from_str("App name `").concat(s).concat(
                "` contains characters outisde the range of `[A-Za-z0-9]`",
            );
            Err(AppParseError { msg })
        }
    }

    /// Reads a name from bytes: accepted if and only if the bytes are a label.
    pub fn from_bytes(b: &[u8]) -> (r: Option<App>)
        ensures
            r is Some <==> is_label_bytes(b@),
            r matches Some(x) ==> x@ == chars_of(b@),
    {
        if label_bytes(b) {
            proof {
                assert forall|i: int| 0 <= i < b@.len() implies #[trigger] b@[i] < 128 by {
                    assert(crate::text::is_alnum_byte(b@[i]));
                }
                lemma_ascii_round_trip(b@);
            }
            Some(App { name: lossy_text(b) })
        } else {
            None
        }
    }

    /// The name.
    pub fn as_str(&self) -> (r: &str)
        ensures
            r@ == self@,
            is_label(self@),
    {
        proof {
            use_type_invariant(self);
        }
        self.name.as_str()
    }

    /// The name, as a text of its own.
    pub fn to_text(&self) -> (r: String)
        ensures
            r@ == self@,
            is_label(self@),
    {
        proof {
            use_type_invariant(self);
        }
        self.name.clone()
    }
}

/// An application name is copied with its text.
impl Clone for App {
    fn clone(&self) -> (r: Self)
        ensures
            r@ == self@,
    {
        proof {
            use_type_invariant(self);
        }
        App { name: self.name.clone() }
    }
}

/// An application name is read from a text as `App::parse` reads it.
impl std::str::FromStr for App {
    type Err = AppParseError;

    fn from_str(s: &str) -> (r: Result<App, AppParseError>)
        ensures
            r is Ok <==> is_label(s@),
            r matches Ok(a) ==> a@ == s@,
            r matches Err(e) ==> e@ == app_error_text(s@),
    {
        App::parse(s)
    }
}

impl AppParseError {
    /// What went wrong.
    pub fn message(&self) -> (r: String)
        ensures
            r@ == "app parse error: "@ + self@,
    {
        String::from_str("app parse error: ").concat(self.msg.as_str())
    }
}

/// The reason is copied with its text.
impl Clone for AppParseError {
    fn clone(&self) -> (r: Self)
        ensures
            r@ == self@,
    {
        AppParseError { msg: self.msg.clone() }
    }
}

} // verus!
