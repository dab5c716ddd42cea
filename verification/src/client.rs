use vstd::prelude::*;
use vstd::string::StringExecFns;
use crate::endpoint::Endpoint;
use crate::errors::IpError;
use crate::extract::parse_ip;
use crate::ipv4::is_ipv4_text;
use crate::laws::lemma_no_invalid_address;

verus! {

/// The transport collaborator: something that can carry the minimal GET
/// exchange with an endpoint and hand back the response text. The
/// library states nothing about what comes back; callers of the trait
/// get their guarantees from what is proved about the extraction that
/// follows. The crate's unverified shell implements this over TCP.
pub trait Fetcher {
    fn fetch(&mut self, ep: &Endpoint) -> Result<String, IpError>;
}

/// The built-in default endpoint: `httpbin.org/ip` on port 80.
pub open spec fn is_default_endpoint(ep: Endpoint) -> bool {
    &&& ep.host@ == "httpbin.org"@
    &&& ep.path is Some
    &&& ep.path->0@ == "/ip"@
    &&& ep.port == 80
}

/// Builds the default endpoint value.
pub fn default_endpoint() -> (ep: Endpoint)
    ensures
        is_default_endpoint(ep),
{
    Endpoint {
        host: String::from_str("httpbin.org"),
        path: Some(String::from_str("/ip")),
        port: 80,
    }
}

/// The public "get my IP" operations.
pub struct IP {}

impl IP {
    /// Asks the default endpoint and extracts the caller's public IPv4
    /// address from whatever text came back. Every successful answer is
    /// a valid dotted-decimal IPv4 literal; failures carry the transport
    /// error or the extractor's `ParseError`.
    pub fn is<F: Fetcher>(f: &mut F) -> (r: Result<String, IpError>)
        ensures
            r is Ok ==> is_ipv4_text(r->Ok_0@),
    {
        let ep = default_endpoint();
        Self::with_endpoint(f, ep)
    }

    /// Asks an explicit endpoint and extracts the caller's public IPv4
    /// address from whatever text came back. Every successful answer is
    /// a valid dotted-decimal IPv4 literal; failures carry the transport
    /// error or the extractor's `ParseError`.
    pub fn with_endpoint<F: Fetcher>(f: &mut F, endpoint: Endpoint) -> (r: Result<
        String,
        IpError,
    >)
        ensures
            r is Ok ==> is_ipv4_text(r->Ok_0@),
    {
        match f.fetch(&endpoint) {
            Ok(text) => {
                let r = parse_ip(text.as_str());
                proof {
                    lemma_no_invalid_address(text@);
                }
                r
            },
            Err(e) => Err(e),
        }
    }
}

} // verus!
