//! Where a request was sent to, as the proxy headers tell.
use vstd::prelude::*;

verus! {

/// The protocol and host a request was addressed to.
pub struct RequestInfo {
    pub protocol: String,
    pub host: String,
}

/// A header's text, or `default` where the header is missing.
pub open spec fn header_or(h: Option<&str>, default: Seq<char>) -> Seq<char> {
    match h {
        Some(v) => v@,
        None => default,
    }
}

/// A header that is present is taken verbatim, port and all; the default
/// stands only for a missing header.
pub proof fn law_header_verbatim(h: Option<&str>, default: Seq<char>)
    ensures
        h matches Some(v) ==> header_or(h, default) == v@,
        h is None ==> header_or(h, default) == default,
{
}

impl RequestInfo {
    /// The protocol from `X-Forwarded-Proto` (default `http`) and the host
    /// from `Host` (default `localhost`).
    pub fn from_headers(forwarded_proto: Option<&str>, host: Option<&str>) -> (r: RequestInfo)
        ensures
            r.protocol@ == header_or(forwarded_proto, "http"@),
            r.host@ == header_or(host, "localhost"@),
    {
        let protocol = match forwarded_proto {
            Some(p) => p.to_owned(),
            None => String::from_str("http"),
        };
        let host = match host {
            Some(h) => h.to_owned(),
            None => String::from_str("localhost"),
        };
        RequestInfo { protocol, host }
    }

    /// The absolute URL of `path` on the host the request was addressed to:
    /// `<protocol>://<host><path>`.
    pub fn url_of(&self, path: &str) -> (r: String)
        ensures
            r@ == self.protocol@ + "://"@ + self.host@ + path@,
    {
        let mut r = String::from_str(self.protocol.as_str());
        r.append("://");
        r.append(self.host.as_str());
        r.append(path);
        r
    }
}

} // verus!
