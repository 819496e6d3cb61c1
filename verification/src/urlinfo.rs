//! The parsed request URL and its validation.
//!
//! A request line must parse as an absolute URL and pass the protocol's
//! checks: the right scheme, no userinfo and no fragment, a host that the
//! configured allow-list admits, and a port that matches the one the
//! connection came in on.  Each failure is answered with its own status
//! and reason.

use vstd::prelude::*;
use vstd::utf8::*;
use crate::respond::Reply;
use crate::text::bytes_to_string;
use crate::text::dec_chars;
use crate::text::u16_to_string;

verus! {

/// The parts of a parsed absolute URL, as mathematical values.
pub ghost struct UrlView {
    pub scheme: Seq<char>,
    pub has_userinfo: bool,
    pub host: Option<Seq<char>>,
    pub port: Option<u16>,
    pub path: Seq<char>,
    pub query: Option<Seq<char>>,
    pub has_fragment: bool,
}

/// The parts of a parsed absolute URL that the pipeline reads.
pub struct UrlModel {
    pub scheme: String,
    pub has_userinfo: bool,
    pub host: Option<String>,
    pub port: Option<u16>,
    pub path: String,
    pub query: Option<String>,
    pub has_fragment: bool,
}

impl View for UrlModel {
    type V = UrlView;

    open spec fn view(&self) -> UrlView {
        UrlView {
            scheme: self.scheme@,
            has_userinfo: self.has_userinfo,
            host: match self.host {
                Some(h) => Some(h@),
                None => None,
            },
            port: self.port,
            path: self.path@,
            query: match self.query {
                Some(q) => Some(q@),
                None => None,
            },
            has_fragment: self.has_fragment,
        }
    }
}

/// What parsing a string as an absolute URL yields.
pub uninterp spec fn url_parse_of(s: Seq<char>) -> Option<UrlView>;

/// Relies on `url::Url::parse` and the accessors of `url::Url`: the parse
/// result is a function of the input string alone; the path of a parsed
/// URL is a percent-encoded ASCII string, and a non-empty path of a URL
/// with a host starts with a slash (a URL with a host may still have an
/// empty path).
#[verifier::external_body]
pub(crate) fn parse_absolute_url(s: &str) -> (r: Option<UrlModel>)
    ensures
        r is Some <==> url_parse_of(s@) is Some,
        r matches Some(m) ==> url_parse_of(s@) == Some(m@),
        r matches Some(m) ==> is_ascii_chars(m.path@),
        r matches Some(m) ==> (m.host is Some && m.path@.len() > 0 ==> m.path@[0] == '/'),
{
    let u = match url::Url::parse(s) {
        Ok(u) => u,
        Err(_) => return None,
    };
    Some(UrlModel {
        scheme: u.scheme().to_string(),
        has_userinfo: !u.username().is_empty() || u.password().is_some(),
        host: u.host_str().map(str::to_string),
        port: u.port(),
        path: u.path().to_string(),
        query: u.query().map(str::to_string),
        has_fragment: u.fragment().is_some(),
    })
}

/// True when the allow-list holds the host.
pub open spec fn host_listed(h: Seq<char>, hostnames: Seq<String>) -> bool {
    exists|i: int| 0 <= i < hostnames.len() && hostnames[i]@ == h
}

/// The verdict on one request line: the validated URL, or the status and
/// reason to answer with.
pub open spec fn request_verdict(
    line: Seq<u8>,
    hostnames: Seq<String>,
    local_port: u16,
) -> Result<UrlView, (u8, Seq<char>)> {
    if !valid_utf8(line) {
        Err((59u8, "Non-UTF-8 request"@))
    } else {
        match url_parse_of(decode_utf8(line)) {
            None => Err((59u8, "Invalid URL"@)),
            Some(u) => if u.scheme != "gemini"@ {
                Err((53u8, "Unsupported URL scheme"@))
            } else if u.has_userinfo || u.has_fragment {
                Err((59u8, "URL contains fragment or userinfo"@))
            } else if u.host is None {
                Err((59u8, "URL does not contain a host"@))
            } else if hostnames.len() > 0 && !host_listed(u.host.unwrap(), hostnames) {
                Err((53u8, "Proxy request refused"@))
            } else if u.port is Some && u.port.unwrap() != local_port {
                Err((53u8, "proxy request refused"@))
            } else {
                Ok(u)
            },
        }
    }
}

fn host_in_list(h: &String, hostnames: &Vec<String>) -> (r: bool)
    ensures
        r == host_listed(h@, hostnames@),
{
    let mut i: usize = 0;
    while i < hostnames.len()
        invariant
            i <= hostnames@.len(),
            forall|j: int| 0 <= j < i ==> hostnames@[j]@ != h@,
        decreases hostnames@.len() - i,
    {
        let candidate: &String = &hostnames[i];
        if candidate.eq(h) {
            proof {
                assert(hostnames@[i as int]@ == h@);
            }
            return true;
        }
        proof {
            assert(hostnames@[i as int]@ != h@);
        }
        i = i + 1;
    }
    false
}

/// The text of a request line, when its bytes are valid UTF-8.  Used both
/// for parsing and for the connection's log record.
pub fn request_text(line: &[u8]) -> (r: Option<String>)
    ensures
        r is Some <==> valid_utf8(line@),
        r matches Some(s) ==> s@ == decode_utf8(line@),
{
    bytes_to_string(line)
}

/// Validate one request line against the configured hostnames and the
/// local port of the connection it came in on.
pub fn validate_request_line(line: &[u8], hostnames: &Vec<String>, local_port: u16) -> (r: Result<
    UrlModel,
    Reply,
>)
    ensures
        request_verdict(line@, hostnames@, local_port) matches Ok(u) ==> r matches Ok(m) && m@
            == u,
        request_verdict(line@, hostnames@, local_port) matches Err(e) ==> r matches Err(rep)
            && rep.status == e.0 && rep.meta@ == e.1,
{
    let text = match request_text(line) {
        Some(t) => t,
        None => {
            return Err(Reply { status: 59, meta: String::from_str("Non-UTF-8 request") });
        },
    };
    let m = match parse_absolute_url(text.as_str()) {
        Some(m) => m,
        None => {
            return Err(Reply { status: 59, meta: String::from_str("Invalid URL") });
        },
    };
    if !(m.scheme == String::from_str("gemini")) {
        return Err(Reply { status: 53, meta: String::from_str("Unsupported URL scheme") });
    }
    if m.has_userinfo || m.has_fragment {
        return Err(
            Reply { status: 59, meta: String::from_str("URL contains fragment or userinfo") },
        );
    }
    let listed = match &m.host {
        Some(h) => host_in_list(h, hostnames),
        None => {
            return Err(Reply { status: 59, meta: String::from_str("URL does not contain a host") });
        },
    };
    if hostnames.len() > 0 && !listed {
        return Err(Reply { status: 53, meta: String::from_str("Proxy request refused") });
    }
    match m.port {
        Some(p) if p != local_port => {
            return Err(Reply { status: 53, meta: String::from_str("proxy request refused") });
        },
        _ => {},
    }
    Ok(m)
}

/// The serialization of the same URL with a slash appended to its path:
/// the target of the redirect that a directory request without a trailing
/// slash is answered with.
pub open spec fn redirect_chars(u: UrlView) -> Seq<char>
    recommends
        u.host is Some,
{
    u.scheme + "://"@ + u.host.unwrap() + (match u.port {
        Some(p) => ":"@ + dec_chars(p as int),
        None => Seq::<char>::empty(),
    }) + u.path + "/"@ + (match u.query {
        Some(q) => "?"@ + q,
        None => Seq::<char>::empty(),
    })
}

/// Build the redirect target for a validated URL.
pub fn redirect_target(m: &UrlModel) -> (r: String)
    requires
        m@.host is Some,
    ensures
        r@ == redirect_chars(m@),
{
    let mut s = m.scheme.clone();
    s.append("://");
    match &m.host {
        Some(h) => s.append(h.as_str()),
        None => {},
    }
    match m.port {
        Some(p) => {
            s.append(":");
            let d = u16_to_string(p);
            s.append(d.as_str());
        },
        None => {},
    }
    s.append(m.path.as_str());
    s.append("/");
    match &m.query {
        Some(q) => {
            s.append("?");
            s.append(q.as_str());
        },
        None => {},
    }
    s
}

} // verus!
