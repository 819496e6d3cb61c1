//! Core logic of a server for a minimalist line-oriented, TLS-only protocol:
//! one request URL terminated by CRLF comes in, one status line and an
//! optional body go out.
//!
//! This crate holds the parts that turn untrusted bytes into protocol
//! decisions, each with a verified contract:
//!
//! - [`reqline`]: bounded accumulation of the request line;
//! - [`urlinfo`]: the parsed request URL and its validation;
//! - [`percent`]: percent-decoding and -encoding with exact specifications;
//! - [`paths`]: confined filesystem path resolution with traversal defense;
//! - [`rules`]: metadata override rules and their lazily populated cache;
//! - [`respond`]: response decisions, status lines and log records;
//! - [`listing`]: deterministic directory listings;
//! - [`certs`]: the certificate store consulted for each TLS handshake.
//!
//! The binary around this library performs the socket, TLS and filesystem
//! work and feeds the results into these functions as plain values.

use vstd::prelude::*;

pub mod certs;
pub mod listing;
pub mod paths;
pub mod percent;
pub mod reqline;
pub mod respond;
pub mod rules;
pub mod text;
pub mod urlinfo;

verus! {

/// Relies on `std::path::Path::exists` to test whether a path names an
/// existing filesystem entry; the answer depends on the disk, so nothing
/// is promised of it.
#[verifier::external_body]
fn path_exists(s: &String) -> bool {
    std::path::Path::new(s).exists()
}

/// One character of a quoted path: a quote or a backslash gets a
/// backslash before it; every other character stands as itself.
pub open spec fn quote_escaped_char(c: char) -> Seq<char> {
    if c == '"' || c == '\\' {
        seq!['\\', c]
    } else {
        seq![c]
    }
}

/// A path as it appears inside the quotes of an error message.
pub open spec fn quote_escaped(s: Seq<char>) -> Seq<char>
    decreases s.len(),
{
    if s.len() == 0 {
        Seq::empty()
    } else {
        quote_escaped(s.drop_last()) + quote_escaped_char(s.last())
    }
}

/// Accept a configured path only when it names something on disk; the
/// error message shows the path quoted, with quotes and backslashes in
/// it escaped.
pub fn check_path(s: String) -> (r: Result<String, String>)
    ensures
        r matches Ok(p) ==> p@ == s@,
        r matches Err(m) ==> m@ == "No such file: \""@ + quote_escaped(s@) + "\""@,
{
    if path_exists(&s) {
        return Ok(s);
    }
    let mut m = String::from_str("No such file: \"");
    let n = s.as_str().unicode_len();
    let mut i: usize = 0;
    proof {
        assert(s@.take(0) =~= Seq::<char>::empty());
        assert(quote_escaped(s@.take(0)) =~= Seq::<char>::empty());
        assert(m@ =~= "No such file: \""@ + quote_escaped(s@.take(0)));
    }
    while i < n
        invariant
            i <= n,
            n == s@.len(),
            m@ == "No such file: \""@ + quote_escaped(s@.take(i as int)),
        decreases n - i,
    {
        let c = s.as_str().get_char(i);
        if c == '"' || c == '\\' {
            m.append("\\");
            proof {
                reveal_strlit("\\");
                assert("\\"@ =~= seq!['\\']);
            }
        }
        m.append(s.as_str().substring_char(i, i + 1));
        proof {
            assert(s@.subrange(i as int, i + 1) =~= seq![s@[i as int]]);
            assert(s@.take(i + 1).drop_last() =~= s@.take(i as int));
            assert(s@.take(i + 1).last() == s@[i as int]);
            assert(m@ =~= "No such file: \""@ + quote_escaped(s@.take(i + 1)));
        }
        i = i + 1;
    }
    m.append("\"");
    proof {
        assert(s@.take(s@.len() as int) =~= s@);
        assert(m@ =~= "No such file: \""@ + quote_escaped(s@) + "\""@);
    }
    Err(m)
}

} // verus!
