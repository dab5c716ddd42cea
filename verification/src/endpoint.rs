use vstd::prelude::*;
use vstd::string::StringExecFns;

verus! {

/// An echo service to query: host, optional request path (`/` stands in
/// when the path is absent), and TCP port. Immutable after construction;
/// these three fields are the only configuration this crate knows.
#[derive(Clone, Debug)]
pub struct Endpoint {
    pub host: String,
    pub path: Option<String>,
    pub port: i32,
}

/// The exact text of the request sent to an endpoint: a minimal HTTP/1.0
/// GET with a `Host` header, closed by the blank line that ends the
/// header block.
pub open spec fn request_text(host: Seq<char>, path: Seq<char>) -> Seq<char> {
    "GET "@ + path + " HTTP/1.0\r\nHost: "@ + host + "\r\n\r\n"@
}

/// Builds the request text for `ep`, with `/` standing in for an absent path.
pub fn build_request(ep: &Endpoint) -> (r: String)
    ensures
        r@ == request_text(
            ep.host@,
            match ep.path {
                Some(p) => p@,
                None => "/"@,
            },
        ),
{
    let mut r = String::from_str("GET ");
    match &ep.path {
        Some(p) => r.append(p.as_str()),
        None => r.append("/"),
    }
    r.append(" HTTP/1.0\r\nHost: ");
    r.append(ep.host.as_str());
    r.append("\r\n\r\n");
    proof {
        assert(r@ =~= request_text(
            ep.host@,
            match ep.path {
                Some(p) => p@,
                None => "/"@,
            },
        ));
    }
    r
}

} // verus!
