//! Filesystem path resolution with traversal defense.
//!
//! Each URL path segment is percent-decoded and must yield exactly one
//! normal path component: not empty, not a dot or a double dot, and
//! holding no path separator, so that neither a literal `..` nor a
//! separator smuggled inside an escape can step out of the content root.
//! A segment of a bad shape is refused as "not found"; the shape is
//! checked on the decoded bytes, before any text decoding, so a smuggled
//! separator is refused even when the rest of the segment is not valid
//! text.  A decoded segment of a good shape that is not valid UTF-8 ends
//! the connection without a response.

use vstd::prelude::*;
use vstd::utf8::*;
use crate::percent::pdecode;
use crate::percent::percent_decode;
use crate::text::bytes_to_string;
use crate::text::split_sep;
use crate::text::split_string;
use crate::text::str_views;
use crate::urlinfo::UrlModel;
use crate::urlinfo::UrlView;
use vstd::string::StrSliceExecFns;

verus! {

/// How one decoded path segment is treated.
pub ghost enum SegClass {
    /// Decodes to nothing: contributes no component.
    Empty,
    /// A separator or a special component: the request is refused.
    Rejected,
    /// Not valid text: the connection is dropped.
    Invalid,
    /// Exactly one normal component, with these characters.
    Normal(Seq<char>),
}

/// Classify the decoded bytes of one path segment.
pub open spec fn classify_decoded(d: Seq<u8>) -> SegClass {
    if d.len() == 0 {
        SegClass::Empty
    } else if d.contains(0x2F) || (d.len() == 1 && d[0] == 0x2E) || (d.len() == 2 && d[0] == 0x2E
        && d[1] == 0x2E) {
        SegClass::Rejected
    } else if !valid_utf8(d) {
        SegClass::Invalid
    } else {
        SegClass::Normal(decode_utf8(d))
    }
}

/// Classify one raw (still percent-encoded) path segment.
pub open spec fn classify_raw(seg: Seq<char>) -> SegClass {
    classify_decoded(pdecode(encode_utf8(seg)))
}

/// A well-formed path component: not empty, no separator, no dot or
/// double-dot.
pub open spec fn seg_wf(s: Seq<char>) -> bool {
    s.len() > 0 && !s.contains('/') && s != seq!['.'] && s != seq!['.', '.']
}

/// A character below 0x80 that occurs in a sequence occurs as a byte in
/// its UTF-8 encoding.
pub proof fn lemma_ascii_char_encoded(cs: Seq<char>, c: char)
    requires
        cs.contains(c),
        (c as u32) < 0x80,
    ensures
        encode_utf8(cs).contains(c as u8),
    decreases cs.len(),
{
    let v = c as u32;
    assert(has_width_1_encoding(v));
    assert((v & 0x7F) as u8 == v as u8) by (bit_vector)
        requires
            v < 0x80,
    ;
    if cs[0] == c {
        assert(encode_scalar(v) == seq![leading_byte_width_1(v)]);
        assert(encode_utf8(cs)[0] == c as u8);
    } else {
        let i = choose|i: int| 0 <= i < cs.len() && cs[i] == c;
        let rest = cs.drop_first();
        assert(rest[i - 1] == c);
        lemma_ascii_char_encoded(rest, c);
        let j = choose|j: int| 0 <= j < encode_utf8(rest).len() && encode_utf8(rest)[j] == c as u8;
        let lead = encode_scalar(cs[0] as u32);
        assert(encode_utf8(cs)[lead.len() + j] == c as u8);
    }
}

/// A normal component is a well-formed path component.
pub proof fn lemma_normal_seg_wf(d: Seq<u8>)
    requires
        classify_decoded(d) is Normal,
    ensures
        seg_wf(classify_decoded(d)->Normal_0),
{
    let cs = decode_utf8(d);
    decode_utf8_encode_utf8(d);
    assert(encode_utf8(cs) == d);
    if cs.len() == 0 {
        assert(encode_utf8(cs) =~= Seq::<u8>::empty());
    }
    if cs.contains('/') {
        assert('/' as u32 == 0x2F);
        lemma_ascii_char_encoded(cs, '/');
        assert(d.contains(0x2F));
    }
    if cs == seq!['.'] {
        lemma_encode_dots();
        assert(d.len() == 1 && d[0] == 0x2E);
    }
    if cs == seq!['.', '.'] {
        lemma_encode_dots();
        assert(d.len() == 2 && d[0] == 0x2E && d[1] == 0x2E);
    }
}

/// The encodings of the two special components.
proof fn lemma_encode_dots()
    ensures
        encode_utf8(seq!['.']) == seq![0x2Eu8],
        encode_utf8(seq!['.', '.']) == seq![0x2Eu8, 0x2Eu8],
{
    let dotv: u32 = '.' as u32;
    assert(dotv == 0x2E);
    assert(has_width_1_encoding(dotv));
    assert((dotv & 0x7F) as u8 == 0x2E) by (bit_vector)
        requires
            dotv == 0x2E,
    ;
    assert(leading_byte_width_1(dotv) == 0x2E);
    let one = seq!['.'];
    let two = seq!['.', '.'];
    assert(one[0] == '.');
    assert(two[0] == '.');
    assert(one.drop_first() =~= Seq::<char>::empty());
    assert(two.drop_first() =~= one);
    assert(encode_utf8(Seq::<char>::empty()) =~= Seq::<u8>::empty());
    assert(encode_scalar(dotv) == seq![0x2Eu8]);
    assert(encode_utf8(one) =~= seq![0x2Eu8]);
    assert(encode_utf8(two) =~= seq![0x2Eu8, 0x2Eu8]);
}

/// What classifying one raw segment yields in executable code.
pub enum SegOutcome {
    Component(String),
    Skip,
    Refuse,
    BadText,
}

fn bytes_contain(v: &Vec<u8>, b: u8) -> (r: bool)
    ensures
        r == v@.contains(b),
{
    let mut i: usize = 0;
    while i < v.len()
        invariant
            i <= v@.len(),
            forall|j: int| 0 <= j < i ==> v@[j] != b,
        decreases v@.len() - i,
    {
        if v[i] == b {
            return true;
        }
        i = i + 1;
    }
    false
}

/// Percent-decode one raw path segment and classify it.
pub fn classify_segment(seg: &str) -> (r: SegOutcome)
    ensures
        classify_raw(seg@) is Empty ==> r is Skip,
        classify_raw(seg@) is Rejected ==> r is Refuse,
        classify_raw(seg@) is Invalid ==> r is BadText,
        classify_raw(seg@) matches SegClass::Normal(cs) ==> r matches SegOutcome::Component(s)
            && s@ == cs && seg_wf(cs),
{
    let bytes = seg.as_bytes();
    let decoded = percent_decode(bytes);
    if decoded.len() == 0 {
        return SegOutcome::Skip;
    }
    let special = if bytes_contain(&decoded, 0x2F) {
        true
    } else if decoded.len() == 1 && decoded[0] == 0x2E {
        true
    } else {
        decoded.len() == 2 && decoded[0] == 0x2E && decoded[1] == 0x2E
    };
    if special {
        return SegOutcome::Refuse;
    }
    match bytes_to_string(decoded.as_slice()) {
        Some(s) => {
            proof {
                lemma_normal_seg_wf(decoded@);
            }
            SegOutcome::Component(s)
        },
        None => SegOutcome::BadText,
    }
}

/// Split a character sequence at every slash.
pub open spec fn split_slash(s: Seq<char>) -> Seq<Seq<char>> {
    split_sep(s, '/')
}

/// Split an absolute URL path into its raw segments: the part after the
/// leading slash, cut at every slash.
pub fn split_path_segments(path: &str) -> (r: Option<Vec<String>>)
    ensures
        r is Some <==> path@.len() > 0 && path@[0] == '/',
        r matches Some(v) ==> str_views(v@) == split_slash(path@.skip(1)),
{
    let n = path.unicode_len();
    if n == 0 || path.get_char(0) != '/' {
        return None;
    }
    let rest = path.substring_char(1, n);
    let out = split_string(rest, '/');
    proof {
        assert(rest@ =~= path@.skip(1));
    }
    Some(out)
}

/// How a whole sequence of raw segments builds up, earliest failure
/// first.
pub ghost enum BuildOutcome {
    /// The components of the candidate path, in order.
    Built(Seq<Seq<char>>),
    /// Some segment had a refused shape: answer "not found".
    Refused,
    /// Some segment was not valid text: drop the connection.
    BadText,
}

/// Fold the classification over the raw segments.
pub open spec fn build_segments(raws: Seq<Seq<char>>) -> BuildOutcome
    decreases raws.len(),
{
    if raws.len() == 0 {
        BuildOutcome::Built(Seq::empty())
    } else {
        match build_segments(raws.drop_last()) {
            BuildOutcome::Built(pre) => match classify_raw(raws.last()) {
                SegClass::Empty => BuildOutcome::Built(pre),
                SegClass::Rejected => BuildOutcome::Refused,
                SegClass::Invalid => BuildOutcome::BadText,
                SegClass::Normal(c) => BuildOutcome::Built(pre.push(c)),
            },
            BuildOutcome::Refused => BuildOutcome::Refused,
            BuildOutcome::BadText => BuildOutcome::BadText,
        }
    }
}

/// The raw segments of a validated URL: the path cut at slashes, when it
/// is absolute; otherwise there are none.
pub open spec fn raw_segs_of(u: UrlView) -> Seq<Seq<char>> {
    if u.path.len() > 0 && u.path[0] == '/' {
        split_slash(u.path.skip(1))
    } else {
        Seq::empty()
    }
}

/// True when some raw segment begins with a dot.
pub open spec fn dotted_of(raws: Seq<Seq<char>>) -> bool {
    exists|i: int| 0 <= i < raws.len() && raws[i].len() > 0 && raws[i][0] == '.'
}

/// A candidate filesystem path: the content root, then the host
/// subdirectory when several hostnames are served, then the path
/// components in order.
pub struct PathModel {
    pub root: String,
    pub host_seg: Option<String>,
    pub segments: Vec<String>,
}

impl PathModel {
    /// Every component is well-formed: nothing can step upward or sideways.
    pub open spec fn wf(&self) -> bool {
        forall|i: int| 0 <= i < self.segments@.len() ==> seg_wf(#[trigger] self.segments@[i]@)
    }
}

/// What resolving a request path yields.
pub enum Resolution {
    /// The candidate path, and whether some raw segment began with a dot.
    Resolved(PathModel, bool),
    /// Refused with "not found".
    NotFound,
    /// Not valid text: the connection is dropped without a response.
    BadText,
}

/// Resolve the path of a validated URL against the content root.  When
/// `multi_host` is set (more than one hostname is served), the host is
/// interposed as a subdirectory.
pub fn resolve_path(root: &String, multi_host: bool, url: &UrlModel) -> (r: Resolution)
    requires
        url@.host is Some,
    ensures
        build_segments(raw_segs_of(url@)) matches BuildOutcome::Built(sv) ==> r matches
            Resolution::Resolved(p, d) && p.root@ == root@ && str_views(p.segments@) == sv && d
            == dotted_of(raw_segs_of(url@)) && p.wf() && (multi_host ==> p.host_seg is Some
            && p.host_seg.unwrap()@ == url@.host.unwrap()) && (!multi_host ==> p.host_seg is None),
        build_segments(raw_segs_of(url@)) is Refused ==> r is NotFound,
        build_segments(raw_segs_of(url@)) is BadText ==> r is BadText,
{
    let raws = match split_path_segments(url.path.as_str()) {
        Some(v) => v,
        None => {
            let empty_vec: Vec<String> = Vec::new();
            proof {
                assert(str_views(empty_vec@) =~= Seq::<Seq<char>>::empty());
            }
            empty_vec
        },
    };
    let ghost raw_views = raw_segs_of(url@);
    proof {
        assert(str_views(raws@) == raw_views);
    }
    let mut segments: Vec<String> = Vec::new();
    let mut dotted = false;
    let mut i: usize = 0;
    proof {
        assert(raw_views.take(0) =~= Seq::<Seq<char>>::empty());
        assert(str_views(segments@) =~= Seq::<Seq<char>>::empty());
        assert(build_segments(raw_views.take(0)) =~= BuildOutcome::Built(str_views(segments@)));
    }
    while i < raws.len()
        invariant
            i <= raws@.len(),
            raw_views == str_views(raws@),
            raw_views == raw_segs_of(url@),
            build_segments(raw_views.take(i as int)) == BuildOutcome::Built(
                str_views(segments@),
            ),
            dotted == dotted_of(raw_views.take(i as int)),
            forall|j: int| 0 <= j < segments@.len() ==> seg_wf(#[trigger] segments@[j]@),
        decreases raws@.len() - i,
    {
        let seg = &raws[i];
        proof {
            assert(raw_views.take(i + 1).drop_last() =~= raw_views.take(i as int));
            assert(raw_views.take(i + 1).last() == seg@);
        }
        proof {
            lemma_dotted_extend(raw_views, i as int);
            assert(raw_views[i as int] == seg@);
        }
        if !seg.as_str().is_empty() && seg.as_str().get_char(0) == '.' {
            dotted = true;
        }
        match classify_segment(seg.as_str()) {
            SegOutcome::Component(c) => {
                proof {
                    assert(str_views(segments@.push(c)) =~= str_views(segments@).push(c@));
                }
                segments.push(c);
            },
            SegOutcome::Skip => {},
            SegOutcome::Refuse => {
                proof {
                    assert(classify_raw(seg@) is Rejected) by {
                        if classify_raw(seg@) is Empty {
                            assert(false);
                        }
                        if classify_raw(seg@) is Invalid {
                            assert(false);
                        }
                        if classify_raw(seg@) is Normal {
                            assert(false);
                        }
                    }
                    lemma_build_prefix_error(raw_views, i as int);
                }
                return Resolution::NotFound;
            },
            SegOutcome::BadText => {
                proof {
                    assert(classify_raw(seg@) is Invalid) by {
                        if classify_raw(seg@) is Empty {
                            assert(false);
                        }
                        if classify_raw(seg@) is Rejected {
                            assert(false);
                        }
                        if classify_raw(seg@) is Normal {
                            assert(false);
                        }
                    }
                    lemma_build_prefix_error(raw_views, i as int);
                }
                return Resolution::BadText;
            },
        }
        i = i + 1;
    }
    proof {
        assert(raw_views.take(raw_views.len() as int) =~= raw_views);
    }
    let host_seg = if multi_host {
        match &url.host {
            Some(h) => Some(h.clone()),
            None => None,
        }
    } else {
        None
    };
    Resolution::Resolved(PathModel { root: root.clone(), host_seg, segments }, dotted)
}

/// A failure at one segment decides the whole build, whatever follows:
/// if the segments before position `i` build cleanly and the one at `i`
/// is refused or unreadable, the build fails the same way.
pub proof fn lemma_build_prefix_error(raws: Seq<Seq<char>>, i: int)
    requires
        0 <= i < raws.len(),
        build_segments(raws.take(i)) is Built,
        classify_raw(raws[i]) is Rejected || classify_raw(raws[i]) is Invalid,
    ensures
        classify_raw(raws[i]) is Rejected ==> build_segments(raws) is Refused,
        classify_raw(raws[i]) is Invalid ==> build_segments(raws) is BadText,
    decreases raws.len(),
{
    if i == raws.len() - 1 {
        assert(raws.drop_last() =~= raws.take(i));
        assert(raws.last() == raws[i]);
    } else {
        assert(raws.drop_last().take(i) =~= raws.take(i));
        assert(raws.drop_last()[i] == raws[i]);
        lemma_build_prefix_error(raws.drop_last(), i);
    }
}

/// A smuggled separator is always refused: a raw segment whose decoding
/// holds a path separator byte never takes part in a built path, and when
/// the segments before it are clean the request is answered "not found".
pub proof fn lemma_encoded_separator_refused(raws: Seq<Seq<char>>, i: int)
    requires
        0 <= i < raws.len(),
        pdecode(encode_utf8(raws[i])).contains(0x2F),
    ensures
        !(build_segments(raws) is Built),
        build_segments(raws.take(i)) is Built ==> build_segments(raws) is Refused,
    decreases raws.len(),
{
    let d = pdecode(encode_utf8(raws[i]));
    assert(d.len() > 0);
    assert(classify_raw(raws[i]) is Rejected);
    if build_segments(raws.take(i)) is Built {
        lemma_build_prefix_error(raws, i);
    }
    if i == raws.len() - 1 {
        assert(raws.last() == raws[i]);
    } else {
        assert(raws.drop_last()[i] == raws[i]);
        lemma_encoded_separator_refused(raws.drop_last(), i);
    }
}

/// Whether a prefix of the raw segments holds a dotted name changes at
/// one position exactly by that position's segment.
pub proof fn lemma_dotted_extend(raws: Seq<Seq<char>>, i: int)
    requires
        0 <= i < raws.len(),
    ensures
        dotted_of(raws.take(i + 1)) == (dotted_of(raws.take(i)) || (raws[i].len() > 0
            && raws[i][0] == '.')),
{
    let ext = raws.take(i + 1);
    let pre = raws.take(i);
    if dotted_of(ext) {
        let j = choose|j: int| 0 <= j < ext.len() && ext[j].len() > 0 && ext[j][0] == '.';
        if j < i {
            assert(pre[j] == ext[j]);
            assert(dotted_of(pre));
        } else {
            assert(ext[i] == raws[i]);
        }
    }
    if dotted_of(pre) {
        let j = choose|j: int| 0 <= j < pre.len() && pre[j].len() > 0 && pre[j][0] == '.';
        assert(ext[j] == pre[j]);
        assert(dotted_of(ext));
    }
    if raws[i].len() > 0 && raws[i][0] == '.' {
        assert(ext[i] == raws[i]);
        assert(dotted_of(ext));
    }
}

/// The components joined, each preceded by a separator.
pub open spec fn slash_join(segs: Seq<Seq<char>>) -> Seq<char>
    decreases segs.len(),
{
    if segs.len() == 0 {
        Seq::empty()
    } else {
        slash_join(segs.drop_last()) + seq!['/'] + segs.last()
    }
}

/// The start of a rendered path: the content root, and the host
/// subdirectory when there is one.
pub open spec fn base_chars(p: PathModel) -> Seq<char> {
    p.root@ + match p.host_seg {
        Some(h) => seq!['/'] + h@,
        None => Seq::<char>::empty(),
    }
}

/// The full rendered path.
pub open spec fn rendered(p: PathModel) -> Seq<char> {
    base_chars(p) + slash_join(str_views(p.segments@))
}

/// The rendered path of the containing directory: the path without its
/// last component.
pub open spec fn rendered_parent(p: PathModel) -> Seq<char> {
    if p.segments@.len() == 0 {
        base_chars(p)
    } else {
        base_chars(p) + slash_join(str_views(p.segments@).drop_last())
    }
}

impl PathModel {
    fn render_upto(&self, count: usize) -> (r: String)
        requires
            count <= self.segments@.len(),
        ensures
            r@ == base_chars(*self) + slash_join(str_views(self.segments@).take(count as int)),
    {
        let ghost views = str_views(self.segments@);
        let mut s = self.root.clone();
        match &self.host_seg {
            Some(h) => {
                s.append("/");
                s.append(h.as_str());
            },
            None => {},
        }
        proof {
            reveal_strlit("/");
            assert("/"@ =~= seq!['/']);
            assert(views.take(0) =~= Seq::<Seq<char>>::empty());
            assert(s@ =~= base_chars(*self) + slash_join(views.take(0)));
        }
        let mut i: usize = 0;
        while i < count
            invariant
                i <= count <= self.segments@.len(),
                views == str_views(self.segments@),
                s@ == base_chars(*self) + slash_join(views.take(i as int)),
            decreases count - i,
        {
            s.append("/");
            s.append(self.segments[i].as_str());
            proof {
                reveal_strlit("/");
                assert("/"@ =~= seq!['/']);
                assert(views.take(i + 1).drop_last() =~= views.take(i as int));
                assert(views.take(i + 1).last() == views[i as int]);
                assert(views[i as int] == self.segments@[i as int]@);
                assert(s@ =~= base_chars(*self) + slash_join(views.take(i + 1)));
            }
            i = i + 1;
        }
        s
    }

    /// The full path as text, for the filesystem.
    pub fn render(&self) -> (r: String)
        ensures
            r@ == rendered(*self),
    {
        let r = self.render_upto(self.segments.len());
        proof {
            assert(str_views(self.segments@).take(self.segments@.len() as int) =~= str_views(
                self.segments@,
            ));
        }
        r
    }

    /// The path of the containing directory as text.
    pub fn render_parent(&self) -> (r: String)
        ensures
            r@ == rendered_parent(*self),
    {
        if self.segments.len() == 0 {
            let r = self.render_upto(0);
            proof {
                assert(str_views(self.segments@).take(0) =~= Seq::<Seq<char>>::empty());
                assert(r@ =~= base_chars(*self));
            }
            r
        } else {
            let r = self.render_upto(self.segments.len() - 1);
            proof {
                assert(str_views(self.segments@).drop_last() =~= str_views(self.segments@).take(
                    self.segments@.len() - 1,
                ));
            }
            r
        }
    }

    /// The last component: the name the metadata rules and the MIME guess
    /// go by.
    pub fn file_name(&self) -> (r: Option<&String>)
        ensures
            self.segments@.len() == 0 ==> r is None,
            self.segments@.len() > 0 ==> (r matches Some(n) && n@ == self.segments@.last()@),
    {
        if self.segments.len() == 0 {
            None
        } else {
            Some(&self.segments[self.segments.len() - 1])
        }
    }

    /// Append one more component.
    pub fn push_segment(&mut self, name: String)
        requires
            seg_wf(name@),
        ensures
            final(self).root == old(self).root,
            final(self).host_seg == old(self).host_seg,
            final(self).segments@ == old(self).segments@.push(name),
            old(self).wf() ==> final(self).wf(),
    {
        self.segments.push(name);
        proof {
            if old(self).wf() {
                assert forall|i: int| 0 <= i < self.segments@.len() implies seg_wf(
                    #[trigger] self.segments@[i]@,
                ) by {
                    if i < old(self).segments@.len() {
                        assert(self.segments@[i] == old(self).segments@[i]);
                    }
                }
            }
        }
    }

    /// An independent copy of the same path.
    pub fn duplicate(&self) -> (r: PathModel)
        ensures
            r.root@ == self.root@,
            r.host_seg is Some <==> self.host_seg is Some,
            r.host_seg is Some ==> r.host_seg.unwrap()@ == self.host_seg.unwrap()@,
            str_views(r.segments@) == str_views(self.segments@),
            base_chars(r) == base_chars(*self),
            rendered(r) == rendered(*self),
            self.wf() ==> r.wf(),
    {
        let host_seg = match &self.host_seg {
            Some(h) => Some(h.clone()),
            None => None,
        };
        let mut segments: Vec<String> = Vec::new();
        let mut i: usize = 0;
        while i < self.segments.len()
            invariant
                i <= self.segments@.len(),
                segments@.len() == i,
                forall|j: int| 0 <= j < i ==> #[trigger] segments@[j]@ == self.segments@[j]@,
            decreases self.segments@.len() - i,
        {
            segments.push(self.segments[i].clone());
            i = i + 1;
        }
        let r = PathModel { root: self.root.clone(), host_seg, segments };
        proof {
            assert(str_views(r.segments@) =~= str_views(self.segments@));
            assert(base_chars(r) =~= base_chars(*self));
            if self.wf() {
                assert forall|j: int| 0 <= j < r.segments@.len() implies seg_wf(
                    #[trigger] r.segments@[j]@,
                ) by {
                    assert(r.segments@[j]@ == str_views(self.segments@)[j]);
                    assert(str_views(self.segments@)[j] == self.segments@[j]@);
                }
            }
        }
        r
    }
}

/// Every rendered path stays lexically below the content root: the
/// rendered text begins with the root, and every component after it is a
/// well-formed single component, never a dot-dot and never holding a
/// separator of its own.
pub proof fn lemma_path_confined(p: PathModel)
    requires
        p.wf(),
    ensures
        rendered(p).take(p.root@.len() as int) == p.root@,
        forall|i: int| 0 <= i < p.segments@.len() ==> seg_wf(#[trigger] p.segments@[i]@),
{
    assert(rendered(p).take(p.root@.len() as int) =~= p.root@);
}

/// The position of the last dot in a name, or a negative value when
/// there is none.
pub open spec fn last_dot(name: Seq<char>) -> int
    decreases name.len(),
{
    if name.len() == 0 {
        -1
    } else if name.last() == '.' {
        name.len() - 1
    } else {
        last_dot(name.drop_last())
    }
}

/// The extension of a file name: what follows the last dot, provided the
/// dot is neither absent nor the leading character.
pub open spec fn ext_of(name: Seq<char>) -> Option<Seq<char>> {
    if last_dot(name) > 0 {
        Some(name.skip(last_dot(name) + 1))
    } else {
        None
    }
}

/// A name with no dot at or after position `k` has its last dot where its
/// first `k` characters have theirs.
proof fn lemma_last_dot_scan(name: Seq<char>, k: int)
    requires
        0 <= k <= name.len(),
        forall|m: int| k <= m < name.len() ==> name[m] != '.',
    ensures
        last_dot(name) == last_dot(name.take(k)),
    decreases name.len() - k,
{
    if k == name.len() {
        assert(name.take(k) =~= name);
    } else {
        assert(name.last() != '.');
        assert(name.drop_last() =~= name.take(name.len() - 1));
        lemma_last_dot_scan(name.take(name.len() - 1), k);
        assert(name.take(name.len() - 1).take(k) =~= name.take(k));
    }
}

/// The extension of a file name, as `Path::extension` reads it.
pub fn extension_of(name: &String) -> (r: Option<String>)
    ensures
        r is Some <==> ext_of(name@) is Some,
        r matches Some(e) ==> ext_of(name@) == Some(e@),
{
    let n = name.as_str().unicode_len();
    let mut k: usize = n;
    loop
        invariant
            0 <= k <= n,
            n == name@.len(),
            forall|m: int| k <= m < n ==> name@[m] != '.',
        decreases k,
    {
        proof {
            lemma_last_dot_scan(name@, k as int);
        }
        if k == 0 {
            proof {
                assert(name@.take(0) =~= Seq::<char>::empty());
            }
            return None;
        }
        if name.as_str().get_char(k - 1) == '.' {
            proof {
                assert(name@.take(k as int).last() == name@[k - 1]);
                assert(last_dot(name@) == k - 1);
            }
            if k - 1 > 0 {
                let e = name.as_str().substring_char(k, n).to_owned();
                return Some(e);
            } else {
                return None;
            }
        }
        k = k - 1;
    }
}

} // verus!
