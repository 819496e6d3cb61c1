//! Response decisions: status lines, the directory redirect and index
//! rules, the hidden-name rule, the response meta for a file, and the
//! connection's log record.

use vstd::prelude::*;
use vstd::string::StrSliceExecFns;
use vstd::utf8::encode_utf8;
use crate::paths::ext_of;
use crate::paths::seg_wf;
use crate::rules::PresetMeta;
use crate::rules::PresetView;
use crate::text::ascii_chars_of;
use crate::text::ascii_to_string;
use crate::urlinfo::redirect_chars;
use crate::urlinfo::redirect_target;
use crate::urlinfo::UrlModel;

verus! {

/// One response status line: a two-digit status and its meta text.
pub struct Reply {
    pub status: u8,
    pub meta: String,
}

/// The bytes of a status line on the wire: the two status digits, a
/// space, the meta text, and CR LF.
pub open spec fn header_view(status: u8, meta: Seq<char>) -> Seq<u8> {
    seq![(0x30 + status / 10) as u8, (0x30 + status % 10) as u8, 0x20u8] + encode_utf8(meta) + seq![
        13u8,
        10u8,
    ]
}

/// Frame one status line for the wire.
pub fn header_bytes(status: u8, meta: &str) -> (r: Vec<u8>)
    requires
        10 <= status < 100,
    ensures
        r@ == header_view(status, meta@),
{
    let mut out: Vec<u8> = Vec::new();
    out.push(0x30 + status / 10);
    out.push(0x30 + status % 10);
    out.push(0x20);
    let meta_bytes = meta.as_bytes_vec();
    let mut i: usize = 0;
    while i < meta_bytes.len()
        invariant
            i <= meta_bytes@.len(),
            meta_bytes@ == encode_utf8(meta@),
            out@ == seq![(0x30 + status / 10) as u8, (0x30 + status % 10) as u8, 0x20u8]
                + meta_bytes@.take(i as int),
        decreases meta_bytes@.len() - i,
    {
        out.push(meta_bytes[i]);
        proof {
            assert(meta_bytes@.take(i + 1) =~= meta_bytes@.take(i as int).push(
                meta_bytes@[i as int],
            ));
            assert(out@ =~= seq![(0x30 + status / 10) as u8, (0x30 + status % 10) as u8, 0x20u8]
                + meta_bytes@.take(i + 1));
        }
        i = i + 1;
    }
    out.push(13);
    out.push(10);
    proof {
        assert(meta_bytes@.take(meta_bytes@.len() as int) =~= meta_bytes@);
        assert(out@ =~= header_view(status, meta@));
    }
    out
}

/// What a resolved path that names a directory calls for.
pub enum DirStep {
    /// The request path already ends in a slash (or is empty): look for
    /// the index document inside.
    TryIndex,
    /// Redirect so that relative links below the directory resolve.
    Redirect(String),
    /// Not a directory at all: serve the file itself.
    NotDirectory,
}

/// Decide what a path calls for once the filesystem has said whether it
/// is a directory.
pub fn classify_directory(url: &UrlModel, is_dir: bool) -> (r: DirStep)
    requires
        url@.host is Some,
    ensures
        !is_dir ==> r is NotDirectory,
        is_dir && (url@.path.len() == 0 || url@.path.last() == '/') ==> r is TryIndex,
        is_dir && url@.path.len() > 0 && url@.path.last() != '/' ==> (r matches DirStep::Redirect(
            t,
        ) && t@ == redirect_chars(url@)),
{
    if !is_dir {
        return DirStep::NotDirectory;
    }
    let n = url.path.as_str().unicode_len();
    if n == 0 || url.path.as_str().get_char(n - 1) == '/' {
        DirStep::TryIndex
    } else {
        DirStep::Redirect(redirect_target(url))
    }
}

/// What a directory without a trailing-slash problem is answered with.
pub enum IndexStep {
    /// The index document exists: serve it.
    ServeIndex,
    /// No index, but listing is opted in: list the directory.
    List,
    /// No index and no opt-in: the directory is not served.
    Refuse,
}

/// Decide between the index document, a generated listing, and a
/// refusal, from what the filesystem says exists.
pub fn index_fallback(index_exists: bool, listing_allowed: bool) -> (r: IndexStep)
    ensures
        index_exists ==> r is ServeIndex,
        !index_exists && listing_allowed ==> r is List,
        !index_exists && !listing_allowed ==> r is Refuse,
{
    if index_exists {
        IndexStep::ServeIndex
    } else if listing_allowed {
        IndexStep::List
    } else {
        IndexStep::Refuse
    }
}

/// Whether a request for a dotted name is refused: only when hiding is
/// on, no metadata rule names the exact path, and some raw segment began
/// with a dot.
pub fn hidden_verdict(serve_secret: bool, has_rule: bool, dotted: bool) -> (r: bool)
    ensures
        r == (!serve_secret && !has_rule && dotted),
{
    !serve_secret && !has_rule && dotted
}

/// The name of the index document inside a directory.
pub fn index_file_name() -> (r: String)
    ensures
        r@ == "index.gmi"@,
        seg_wf(r@),
{
    let bytes: Vec<u8> = vec![0x69, 0x6E, 0x64, 0x65, 0x78, 0x2E, 0x67, 0x6D, 0x69];
    let r = ascii_to_string(bytes);
    proof {
        reveal_strlit("index.gmi");
        assert(r@ =~= "index.gmi"@);
        assert forall|i: int| 0 <= i < r@.len() implies r@[i] != '/' by {}
        assert(!r@.contains('/'));
        assert(r@ != seq!['.'] && r@ != seq!['.', '.']);
    }
    r
}

/// What the guessed MIME type of an extension is, by the common
/// extension table.
pub uninterp spec fn mime_essence_for(ext: Seq<char>) -> Seq<char>;

/// Relies on `mime_guess::from_ext` with `first_or_octet_stream` and
/// `essence_str`: a fixed table lookup by extension, a function of the
/// extension alone; an unknown or empty extension falls back to the
/// octet-stream type.
#[verifier::external_body]
fn guess_mime(ext: &str) -> (r: String)
    ensures
        r@ == mime_essence_for(ext@),
{
    mime_guess::from_ext(ext).first_or_octet_stream().essence_str().to_string()
}

/// How a regular file is answered.
pub enum FileServe {
    /// A full header override: send it, never open the file.
    Preset(Reply),
    /// Open the file and, if that works, send success with this meta and
    /// then the file's bytes.
    Open(String),
}

/// The meta for a served file: a full MIME override as it stands, or the
/// guess by extension (the protocol's own format for its reserved
/// extension) with the default parameters appended.
pub open spec fn file_meta_view(preset: PresetView, name: Seq<char>) -> Seq<char> {
    match preset {
        PresetView::Header(_, _) => Seq::empty(),
        PresetView::Mime(m) => m,
        PresetView::Params(p) => {
            let e = match ext_of(name) {
                Some(e) => e,
                None => Seq::empty(),
            };
            if e == "gmi"@ {
                "text/gemini"@ + p
            } else {
                mime_essence_for(e) + p
            }
        },
    }
}

/// Decide how to answer a regular file from its override and its name.
pub fn file_serve_plan(preset: &PresetMeta, name: &String) -> (r: FileServe)
    ensures
        preset@ matches PresetView::Header(s, m) ==> (r matches FileServe::Preset(rep)
            && rep.status == s && rep.meta@ == m),
        !(preset@ is Header) ==> (r matches FileServe::Open(meta) && meta@ == file_meta_view(
            preset@,
            name@,
        )),
{
    match preset {
        PresetMeta::FullHeader(status, meta) => FileServe::Preset(
            Reply { status: *status, meta: meta.clone() },
        ),
        PresetMeta::FullMime(m) => FileServe::Open(m.clone()),
        PresetMeta::Parameters(p) => {
            let ext = match crate::paths::extension_of(name) {
                Some(e) => e,
                None => String::new(),
            };
            let gmi = String::from_str("gmi");
            let mut meta = if ext == gmi {
                String::from_str("text/gemini")
            } else {
                guess_mime(ext.as_str())
            };
            meta.append(p.as_str());
            FileServe::Open(meta)
        },
    }
}

/// The connection's one log record: local and remote address, the
/// literal request, the status and meta answered, and an optional error
/// tag — every field present even on early failure.
pub fn log_record(
    local: &str,
    remote: &str,
    request: &str,
    status: u8,
    meta: &str,
    error: Option<&String>,
) -> (r: String)
    requires
        status < 100,
    ensures
        r@ == local@ + " "@ + remote@ + " \""@ + request@ + "\" "@ + ascii_chars_of(
            seq![(0x30 + status / 10) as u8, (0x30 + status % 10) as u8],
        ) + " \""@ + meta@ + "\""@ + (match error {
            Some(e) => " error:"@ + e@,
            None => Seq::<char>::empty(),
        }),
{
    let mut s = local.to_owned();
    s.append(" ");
    s.append(remote);
    s.append(" \"");
    s.append(request);
    s.append("\" ");
    let digits: Vec<u8> = vec![0x30 + status / 10, 0x30 + status % 10];
    let d = ascii_to_string(digits);
    s.append(d.as_str());
    s.append(" \"");
    s.append(meta);
    s.append("\"");
    match error {
        Some(e) => {
            s.append(" error:");
            s.append(e.as_str());
        },
        None => {},
    }
    s
}

/// The answer for a path that does not resolve or open.
pub fn reply_not_found() -> (r: Reply)
    ensures
        r.status == 51,
        r.meta@ == "Not found, sorry."@,
{
    Reply { status: 51, meta: String::from_str("Not found, sorry.") }
}

/// The answer for a hidden name that stays hidden.
pub fn reply_secret() -> (r: Reply)
    ensures
        r.status == 52,
        r.meta@ == "If I told you, it would not be a secret."@,
{
    Reply { status: 52, meta: String::from_str("If I told you, it would not be a secret.") }
}

/// The answer for a directory with no index document and no listing
/// opt-in.
pub fn reply_directory_refused() -> (r: Reply)
    ensures
        r.status == 51,
        r.meta@ == "Directory index disabled."@,
{
    Reply { status: 51, meta: String::from_str("Directory index disabled.") }
}

} // verus!
