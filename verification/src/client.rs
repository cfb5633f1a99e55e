//! What a client of the endpoints puts into its requests.

use vstd::prelude::*;
use vstd::string::*;
use std::sync::Arc;
use crate::identity::{App, Host};
use crate::level::Level;

verus! {

/// Puts one API key into each request.
#[derive(Clone, Debug)]
pub struct BasicProxy {
    pub api_key: String,
}

impl BasicProxy {
    /// A proxy with the key, ready to be shared by the requests.
    pub fn init(api_key: String) -> (r: Arc<BasicProxy>)
        ensures
            r.api_key == api_key,
    {
        Arc::new(BasicProxy { api_key })
    }
}

/// The three parts of a partition as a path: `{host}/{app}/{severity}`, the
/// severity in lowercase.
pub open spec fn partition_path(host: Seq<char>, app: Seq<char>, level: Level) -> Seq<char> {
    host + seq!['/'] + app + seq!['/'] + level.name()
}

/// The path of the endpoint that takes the batches of a partition, under a
/// base.
pub fn submit_path(base: &str, host: &Host, app: &App, level: Level) -> (r: String)
    ensures
        r@ == base@ + "/submit/"@ + partition_path(host@, app@, level),
{
    proof {
        reveal_strlit("/");
        assert("/"@ =~= seq!['/']);
    }
    let r = String::from_str(base).concat("/submit/").concat(host.as_str()).concat("/").concat(
        app.as_str(),
    ).concat("/").concat(level.as_str());
    assert(r@ =~= base@ + "/submit/"@ + partition_path(host@, app@, level));
    r
}

/// The path of the endpoint that gives the histogram of a partition.
pub fn detail_path(host: &Host, app: &App, level: Level) -> (r: String)
    ensures
        r@ == "detail/"@ + partition_path(host@, app@, level),
{
    proof {
        reveal_strlit("/");
        assert("/"@ =~= seq!['/']);
    }
    let r = String::from_str("detail/").concat(host.as_str()).concat("/").concat(
        app.as_str(),
    ).concat("/").concat(level.as_str());
    assert(r@ =~= "detail/"@ + partition_path(host@, app@, level));
    r
}

/// The path of the endpoint that runs a query.
pub fn query_path() -> (r: &'static str)
    ensures
        r@ == "query"@,
{
    "query"
}

/// The path of the endpoint that gives the inventory.
pub fn info_path() -> (r: &'static str)
    ensures
        r@ == "info"@,
{
    "info"
}

} // verus!
