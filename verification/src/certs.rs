//! The certificate store consulted during each TLS handshake.
//!
//! One entry per hostname, each holding the certificate chain and the
//! private key in DER bytes, loaded once at startup and read-only after
//! that.  Hostnames are compared case-insensitively (ASCII), as they
//! appear as subdirectory names under the certificate root.  Resolution
//! by server name returns the matching entry; without a match, a
//! single-site server (one with an empty host allow-list) deterministically
//! falls back to its first entry, and a multi-site server refuses, which
//! aborts the handshake before any request is read.

use vstd::prelude::*;
use vstd::string::StrSliceExecFns;
use vstd::utf8::encode_utf8;

verus! {

/// The certificate material served for one hostname.
#[derive(Debug)]
pub struct CertEntry {
    pub hostname: String,
    pub chain: Vec<Vec<u8>>,
    pub key_der: Vec<u8>,
}

/// Why a store could not be built.
pub enum CertLoadError {
    /// The certificate root held no usable entry; the caller may
    /// bootstrap certificates and retry.
    Empty,
}

/// A byte with ASCII uppercase folded to lowercase.
pub open spec fn lower_byte(b: u8) -> u8 {
    if 0x41 <= b && b <= 0x5A {
        (b + 0x20) as u8
    } else {
        b
    }
}

/// Case-insensitive (ASCII) equality of two names, by their encodings.
pub open spec fn name_matches(a: Seq<char>, b: Seq<char>) -> bool {
    let ab = encode_utf8(a);
    let bb = encode_utf8(b);
    ab.len() == bb.len() && forall|i: int|
        0 <= i < ab.len() ==> lower_byte(ab[i]) == lower_byte(bb[i])
}

/// Compare two names case-insensitively (ASCII).
pub fn names_match(a: &str, b: &str) -> (r: bool)
    ensures
        r == name_matches(a@, b@),
{
    let ab = a.as_bytes_vec();
    let bb = b.as_bytes_vec();
    if ab.len() != bb.len() {
        return false;
    }
    let mut i: usize = 0;
    while i < ab.len()
        invariant
            ab@.len() == bb@.len(),
            i <= ab@.len(),
            ab@ == encode_utf8(a@),
            bb@ == encode_utf8(b@),
            forall|j: int| 0 <= j < i ==> lower_byte(ab@[j]) == lower_byte(bb@[j]),
        decreases ab@.len() - i,
    {
        let x = ab[i];
        let y = bb[i];
        let xl = if 0x41 <= x && x <= 0x5A {
            x + 0x20
        } else {
            x
        };
        let yl = if 0x41 <= y && y <= 0x5A {
            y + 0x20
        } else {
            y
        };
        if xl != yl {
            return false;
        }
        i = i + 1;
    }
    true
}

/// The read-only certificate store.
#[derive(Debug)]
pub struct CertStore {
    entries: Vec<CertEntry>,
}

impl CertStore {
    /// The entries, in load order.
    pub closed spec fn entries_view(&self) -> Seq<CertEntry> {
        self.entries@
    }

    /// True when some entry serves this name.
    pub open spec fn has_name(&self, name: Seq<char>) -> bool {
        exists|i: int|
            0 <= i < self.entries_view().len() && name_matches(
                #[trigger] self.entries_view()[i].hostname@,
                name,
            )
    }

    /// Build the store from the loaded entries; an empty load is the
    /// distinguished empty condition, not a store.
    pub fn build(entries: Vec<CertEntry>) -> (r: Result<CertStore, CertLoadError>)
        ensures
            entries@.len() == 0 <==> r is Err,
            r matches Ok(s) ==> s.entries_view() == entries@,
    {
        if entries.len() == 0 {
            Err(CertLoadError::Empty)
        } else {
            Ok(CertStore { entries })
        }
    }

    /// Whether a certificate for this domain is on hand.
    pub fn has_domain(&self, name: &str) -> (r: bool)
        ensures
            r == self.has_name(name@),
    {
        let mut i: usize = 0;
        while i < self.entries.len()
            invariant
                i <= self.entries@.len(),
                forall|j: int|
                    0 <= j < i ==> !name_matches(#[trigger] self.entries@[j].hostname@, name@),
            decreases self.entries@.len() - i,
        {
            if names_match(self.entries[i].hostname.as_str(), name) {
                proof {
                    assert(name_matches(self.entries_view()[i as int].hostname@, name@));
                }
                return true;
            }
            i = i + 1;
        }
        false
    }

    /// True when the entry at this position is the first whose hostname
    /// matches the name.
    pub open spec fn first_match_at(&self, name: Seq<char>, i: int) -> bool {
        0 <= i < self.entries_view().len() && name_matches(self.entries_view()[i].hostname@, name)
            && forall|j: int|
            0 <= j < i ==> !name_matches(#[trigger] self.entries_view()[j].hostname@, name)
    }

    /// The entry to present for a handshake: the first entry whose
    /// hostname matches the announced server name; with no match, the
    /// first entry of a single-site server, or nothing — the handshake is
    /// then aborted.
    pub fn resolve(&self, sni: Option<&String>, single_site: bool) -> (r: Option<&CertEntry>)
        ensures
            (match sni {
                Some(n) => self.has_name(n@),
                None => false,
            }) ==> (r matches Some(e) && sni matches Some(n) && (exists|i: int|
                #[trigger] self.first_match_at(n@, i) && *e == self.entries_view()[i])),
            (match sni {
                Some(n) => !self.has_name(n@),
                None => true,
            }) ==> (if single_site && self.entries_view().len() > 0 {
                r matches Some(e) && *e == self.entries_view()[0]
            } else {
                r is None
            }),
    {
        match sni {
            Some(n) => {
                let mut i: usize = 0;
                while i < self.entries.len()
                    invariant
                        i <= self.entries@.len(),
                        sni == Some(n),
                        forall|j: int|
                            0 <= j < i ==> !name_matches(
                                #[trigger] self.entries@[j].hostname@,
                                n@,
                            ),
                    decreases self.entries@.len() - i,
                {
                    if names_match(self.entries[i].hostname.as_str(), n.as_str()) {
                        proof {
                            assert(self.first_match_at(n@, i as int));
                        }
                        return Some(&self.entries[i]);
                    }
                    i = i + 1;
                }
                proof {
                    assert(!self.has_name(n@)) by {
                        if self.has_name(n@) {
                            let k = choose|k: int|
                                0 <= k < self.entries_view().len() && name_matches(
                                    #[trigger] self.entries_view()[k].hostname@,
                                    n@,
                                );
                            assert(!name_matches(self.entries@[k].hostname@, n@));
                        }
                    }
                }
                if single_site && self.entries.len() > 0 {
                    Some(&self.entries[0])
                } else {
                    None
                }
            },
            None => {
                if single_site && self.entries.len() > 0 {
                    Some(&self.entries[0])
                } else {
                    None
                }
            },
        }
    }
}

} // verus!
