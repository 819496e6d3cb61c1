//! Deterministic directory listings.
//!
//! Every visible entry becomes one link line; dotted names are skipped,
//! a subdirectory's visible name carries a trailing slash, and the link
//! target is the percent-encoded visible name (spelled out beside the
//! target only when encoding changed it).  The lines are sorted by their
//! emitted bytes, so the listing does not depend on the order in which
//! the filesystem hands the entries out.

use vstd::prelude::*;
use vstd::multiset::Multiset;
use vstd::string::StrSliceExecFns;
use vstd::utf8::encode_utf8;
use crate::percent::pencode;
use crate::percent::percent_encode;
use crate::text::bytes_le;
use crate::text::lemma_lex_antisym;
use crate::text::lemma_lex_total;
use crate::text::lemma_lex_trans;
use crate::text::lex_le;

verus! {

/// One directory entry as the filesystem reports it.
pub struct FsEntry {
    pub name: String,
    pub is_dir: bool,
}

/// A dotted name is not listed.
pub open spec fn hidden_name(name: Seq<char>) -> bool {
    name.len() > 0 && name[0] == '.'
}

/// The name shown: a subdirectory carries a trailing slash.
pub open spec fn visible_name(name: Seq<char>, is_dir: bool) -> Seq<char> {
    if is_dir {
        name + seq!['/']
    } else {
        name
    }
}

/// The bytes of one link line for a visible name.
pub open spec fn line_view(name: Seq<char>, is_dir: bool) -> Seq<u8> {
    let vb = encode_utf8(visible_name(name, is_dir));
    let enc = pencode(vb);
    if enc == vb {
        seq![0x3Du8, 0x3Eu8, 0x20u8] + vb + seq![0x0Au8]
    } else {
        seq![0x3Du8, 0x3Eu8, 0x20u8] + enc + seq![0x20u8] + vb + seq![0x0Au8]
    }
}

/// The lines one entry contributes: none when its name is dotted.
pub open spec fn entry_lines(e: FsEntry) -> Seq<Seq<u8>> {
    if hidden_name(e.name@) {
        Seq::<Seq<u8>>::empty()
    } else {
        seq![line_view(e.name@, e.is_dir)]
    }
}

/// The lines of the visible entries, in the order given.
pub open spec fn listing_views(entries: Seq<FsEntry>) -> Seq<Seq<u8>>
    decreases entries.len(),
{
    if entries.len() == 0 {
        Seq::empty()
    } else {
        listing_views(entries.drop_last()) + entry_lines(entries.last())
    }
}

/// The views of a vector of byte vectors.
pub open spec fn byte_views(s: Seq<Vec<u8>>) -> Seq<Seq<u8>> {
    Seq::new(s.len(), |i: int| s[i]@)
}

/// Sorted by the lexicographic byte order.
pub open spec fn sorted_lex(s: Seq<Seq<u8>>) -> bool {
    forall|i: int, j: int| 0 <= i < j < s.len() ==> lex_le(s[i], s[j])
}

fn extend_from(out: &mut Vec<u8>, src: &Vec<u8>)
    ensures
        final(out)@ == old(out)@ + src@,
{
    let mut i: usize = 0;
    while i < src.len()
        invariant
            i <= src@.len(),
            out@ == old(out)@ + src@.take(i as int),
        decreases src@.len() - i,
    {
        out.push(src[i]);
        proof {
            assert(old(out)@ + src@.take(i + 1) =~= (old(out)@ + src@.take(i as int)).push(
                src@[i as int],
            ));
        }
        i = i + 1;
    }
    proof {
        assert(src@.take(src@.len() as int) =~= src@);
    }
}

fn vec_bytes_eq(a: &Vec<u8>, b: &Vec<u8>) -> (r: bool)
    ensures
        r == (a@ == b@),
{
    if a.len() != b.len() {
        return false;
    }
    let mut i: usize = 0;
    while i < a.len()
        invariant
            a@.len() == b@.len(),
            i <= a@.len(),
            forall|j: int| 0 <= j < i ==> a@[j] == b@[j],
        decreases a@.len() - i,
    {
        if a[i] != b[i] {
            return false;
        }
        i = i + 1;
    }
    proof {
        assert(a@ =~= b@);
    }
    true
}

/// The line for one visible entry.
fn build_line(name: &String, is_dir: bool) -> (r: Vec<u8>)
    ensures
        r@ == line_view(name@, is_dir),
{
    let mut visible = name.clone();
    if is_dir {
        visible.append("/");
        proof {
            reveal_strlit("/");
            assert("/"@ =~= seq!['/']);
        }
    }
    proof {
        assert(visible@ == visible_name(name@, is_dir));
    }
    let vb = visible.as_str().as_bytes_vec();
    let enc = percent_encode(vb.as_slice());
    let same = vec_bytes_eq(&enc, &vb);
    let mut line: Vec<u8> = Vec::new();
    line.push(0x3D);
    line.push(0x3E);
    line.push(0x20);
    extend_from(&mut line, &enc);
    if !same {
        line.push(0x20);
        extend_from(&mut line, &vb);
    }
    line.push(0x0A);
    proof {
        assert(line@ =~= line_view(name@, is_dir));
    }
    line
}

fn min_index(v: &Vec<Vec<u8>>) -> (r: usize)
    requires
        v@.len() > 0,
    ensures
        r < v@.len(),
        forall|j: int| 0 <= j < v@.len() ==> lex_le(v@[r as int]@, #[trigger] v@[j]@),
{
    let mut m: usize = 0;
    let mut i: usize = 1;
    proof {
        lemma_lex_total(v@[0]@, v@[0]@);
    }
    while i < v.len()
        invariant
            m < i <= v@.len(),
            forall|j: int| 0 <= j < i ==> lex_le(v@[m as int]@, #[trigger] v@[j]@),
        decreases v@.len() - i,
    {
        proof {
            lemma_lex_total(v@[m as int]@, v@[i as int]@);
        }
        if !bytes_le(&v[m], &v[i]) {
            proof {
                assert forall|j: int| 0 <= j < i + 1 implies lex_le(
                    v@[i as int]@,
                    #[trigger] v@[j]@,
                ) by {
                    if j < i {
                        lemma_lex_trans(v@[i as int]@, v@[m as int]@, v@[j]@);
                    } else {
                        lemma_lex_total(v@[i as int]@, v@[i as int]@);
                    }
                }
            }
            m = i;
        }
        i = i + 1;
    }
    m
}

/// Sort lines by their bytes; the same lines come out that went in.
pub fn sort_lines(input: Vec<Vec<u8>>) -> (r: Vec<Vec<u8>>)
    ensures
        sorted_lex(byte_views(r@)),
        byte_views(r@).to_multiset() == byte_views(input@).to_multiset(),
{
    broadcast use vstd::seq_lib::group_to_multiset_ensures;

    let ghost orig = byte_views(input@);
    let mut rest = input;
    let mut out: Vec<Vec<u8>> = Vec::new();
    proof {
        assert(byte_views(out@) =~= Seq::<Seq<u8>>::empty());
        assert(byte_views(out@).to_multiset().add(byte_views(rest@).to_multiset()) =~= orig.to_multiset());
    }
    while rest.len() > 0
        invariant
            sorted_lex(byte_views(out@)),
            byte_views(out@).to_multiset().add(byte_views(rest@).to_multiset())
                == orig.to_multiset(),
            forall|i: int, j: int|
                0 <= i < out@.len() && 0 <= j < rest@.len() ==> lex_le(
                    #[trigger] out@[i]@,
                    #[trigger] rest@[j]@,
                ),
        decreases rest@.len(),
    {
        let m = min_index(&rest);
        let ghost before = byte_views(rest@);
        let x = rest.remove(m);
        let ghost after = byte_views(rest@);
        proof {
            before.to_multiset_ensures();
            assert(after =~= before.remove(m as int));
            assert(before[m as int] == x@);
            assert(before.remove(m as int).to_multiset() =~= before.to_multiset().remove(x@));
        }
        let ghost out_before = byte_views(out@);
        out.push(x);
        proof {
            out_before.to_multiset_ensures();
            before.to_multiset_ensures();
            assert(byte_views(out@) =~= out_before.push(x@));
            assert(out_before.push(x@).to_multiset() =~= out_before.to_multiset().insert(x@));
            assert(before.contains(x@));
            assert(before.to_multiset().count(x@) >= 1);
            assert(out_before.to_multiset().insert(x@).add(before.to_multiset().remove(x@))
                =~= out_before.to_multiset().add(before.to_multiset()));
            assert forall|i: int, j: int|
                0 <= i < j < byte_views(out@).len() implies lex_le(
                byte_views(out@)[i],
                byte_views(out@)[j],
            ) by {
                if j < out_before.len() {
                    assert(byte_views(out@)[i] == out_before[i]);
                    assert(byte_views(out@)[j] == out_before[j]);
                } else {
                    assert(byte_views(out@)[j] == x@);
                    assert(out_before[i] == byte_views(out@)[i]);
                }
            }
            assert forall|i: int, j: int|
                0 <= i < out@.len() && 0 <= j < rest@.len() implies lex_le(
                #[trigger] out@[i]@,
                #[trigger] rest@[j]@,
            ) by {
                if j < m {
                    assert(after[j] == before[j]);
                } else {
                    assert(after[j] == before[j + 1]);
                }
                if i < out_before.len() {
                    assert(out@[i]@ == out_before[i]);
                    lemma_lex_trans(out@[i]@, x@, rest@[j]@);
                } else {
                    assert(out@[i]@ == x@);
                }
            }
        }
    }
    proof {
        assert(byte_views(rest@) =~= Seq::<Seq<u8>>::empty());
        assert(byte_views(rest@).to_multiset() =~= Multiset::<Seq<u8>>::empty());
        assert(byte_views(out@).to_multiset() =~= orig.to_multiset());
    }
    out
}

/// Listing determinism: one sequence of lines has exactly one sorted
/// order, so whenever two listings are built from the same lines — as
/// two enumerations of the same directory entries are, in whatever order
/// the filesystem hands them out — their output is byte-identical.
pub proof fn lemma_listing_deterministic(a: Seq<Seq<u8>>, b: Seq<Seq<u8>>)
    requires
        sorted_lex(a),
        sorted_lex(b),
        a.to_multiset() == b.to_multiset(),
    ensures
        a == b,
    decreases a.len(),
{
    a.to_multiset_ensures();
    b.to_multiset_ensures();
    if a.len() == 0 {
        assert(b.len() == 0);
        assert(a =~= b);
    } else {
        assert(b.len() == a.len());
        assert(a.contains(a[0]));
        assert(b.to_multiset().count(a[0]) > 0);
        assert(b.contains(a[0]));
        let k = choose|k: int| 0 <= k < b.len() && b[k] == a[0];
        if k > 0 {
            assert(lex_le(b[0], b[k]));
        } else {
            lemma_lex_total(b[0], b[0]);
        }
        assert(lex_le(b[0], a[0]));
        assert(a.to_multiset().count(b[0]) > 0);
        assert(a.contains(b[0]));
        let m = choose|m: int| 0 <= m < a.len() && a[m] == b[0];
        if m > 0 {
            assert(lex_le(a[0], a[m]));
        } else {
            lemma_lex_total(a[0], a[0]);
        }
        assert(lex_le(a[0], b[0]));
        lemma_lex_antisym(a[0], b[0]);
        let ta = a.drop_first();
        let tb = b.drop_first();
        assert(ta =~= a.remove(0));
        assert(tb =~= b.remove(0));
        assert(ta.to_multiset() =~= a.to_multiset().remove(a[0]));
        assert(tb.to_multiset() =~= b.to_multiset().remove(b[0]));
        assert(ta.to_multiset() == tb.to_multiset());
        assert forall|i: int, j: int| 0 <= i < j < ta.len() implies lex_le(ta[i], ta[j]) by {
            assert(ta[i] == a[i + 1] && ta[j] == a[j + 1]);
        }
        assert forall|i: int, j: int| 0 <= i < j < tb.len() implies lex_le(tb[i], tb[j]) by {
            assert(tb[i] == b[i + 1] && tb[j] == b[j + 1]);
        }
        lemma_listing_deterministic(ta, tb);
        assert forall|i: int| 0 <= i < a.len() implies a[i] == b[i] by {
            if i > 0 {
                assert(a[i] == ta[i - 1]);
                assert(b[i] == tb[i - 1]);
            }
        }
        assert(a =~= b);
    }
}

/// Taking one entry out takes exactly its lines out of the multiset.
proof fn lemma_listing_views_remove(entries: Seq<FsEntry>, k: int)
    requires
        0 <= k < entries.len(),
    ensures
        listing_views(entries).to_multiset() == listing_views(entries.remove(k)).to_multiset().add(
            entry_lines(entries[k]).to_multiset(),
        ),
    decreases entries.len(),
{
    let x = entries[k];
    let x_lines = entry_lines(x);
    let empty_lines = Seq::<Seq<u8>>::empty();
    x_lines.to_multiset_ensures();
    empty_lines.to_multiset_ensures();
    listing_views(entries).to_multiset_ensures();
    listing_views(entries.remove(k)).to_multiset_ensures();
    listing_views(entries.drop_last()).to_multiset_ensures();
    assert forall|a: Seq<u8>| empty_lines.to_multiset().count(a) == 0 by {
        assert(!empty_lines.contains(a));
    }
    assert(empty_lines.to_multiset() =~= Multiset::<Seq<u8>>::empty());
    if k == entries.len() - 1 {
        assert(entries.remove(k) =~= entries.drop_last());
        if hidden_name(x.name@) {
            assert(listing_views(entries) =~= listing_views(entries.drop_last()));
            assert(x_lines.to_multiset() =~= Multiset::<Seq<u8>>::empty());
            assert(listing_views(entries).to_multiset() =~= listing_views(
                entries.remove(k),
            ).to_multiset().add(x_lines.to_multiset()));
        } else {
            let line = line_view(x.name@, x.is_dir);
            assert(listing_views(entries) =~= listing_views(entries.drop_last()).push(line));
            assert(x_lines =~= empty_lines.push(line));
            assert(x_lines.to_multiset() =~= Multiset::<Seq<u8>>::empty().insert(line));
            assert(listing_views(entries).to_multiset() =~= listing_views(
                entries.remove(k),
            ).to_multiset().add(x_lines.to_multiset()));
        }
    } else {
        let last = entries.last();
        let shorter = entries.drop_last();
        assert(entries.remove(k).last() == last);
        assert(entries.remove(k).drop_last() =~= shorter.remove(k));
        assert(shorter[k] == x);
        lemma_listing_views_remove(shorter, k);
        listing_views(shorter.remove(k)).to_multiset_ensures();
        if hidden_name(last.name@) {
            assert(listing_views(entries) =~= listing_views(shorter));
            assert(listing_views(entries.remove(k)) =~= listing_views(shorter.remove(k)));
            assert(listing_views(entries).to_multiset() =~= listing_views(
                entries.remove(k),
            ).to_multiset().add(x_lines.to_multiset()));
        } else {
            let line = line_view(last.name@, last.is_dir);
            assert(listing_views(entries) =~= listing_views(shorter).push(line));
            assert(listing_views(entries.remove(k)) =~= listing_views(shorter.remove(k)).push(
                line,
            ));
            assert(listing_views(entries).to_multiset() =~= listing_views(
                entries.remove(k),
            ).to_multiset().add(x_lines.to_multiset()));
        }
    }
}

/// The order in which the filesystem enumerates a directory is
/// irrelevant: two enumerations with the same entries yield the same
/// lines, up to order — and therefore, once sorted, the same listing.
pub proof fn lemma_enumeration_order_irrelevant(e1: Seq<FsEntry>, e2: Seq<FsEntry>)
    requires
        e1.to_multiset() == e2.to_multiset(),
    ensures
        listing_views(e1).to_multiset() == listing_views(e2).to_multiset(),
    decreases e1.len(),
{
    e1.to_multiset_ensures();
    e2.to_multiset_ensures();
    if e1.len() == 0 {
        assert(e2.len() == 0);
        assert(listing_views(e1).to_multiset() =~= listing_views(e2).to_multiset());
    } else {
        let x = e1.last();
        assert(e1.contains(x));
        assert(e2.to_multiset().count(x) > 0);
        assert(e2.contains(x));
        let k = choose|k: int| 0 <= k < e2.len() && e2[k] == x;
        assert(e1.drop_last() =~= e1.remove(e1.len() - 1));
        assert(e1.drop_last().to_multiset() =~= e1.to_multiset().remove(x));
        assert(e2.remove(k).to_multiset() =~= e2.to_multiset().remove(x));
        lemma_enumeration_order_irrelevant(e1.drop_last(), e2.remove(k));
        lemma_listing_views_remove(e1, e1.len() - 1);
        lemma_listing_views_remove(e2, k);
        assert(e1.remove(e1.len() - 1) =~= e1.drop_last());
    }
}

/// The link lines for a directory's entries: dotted names skipped,
/// subdirectories marked, targets percent-encoded, and the whole listing
/// sorted by its emitted bytes.
pub fn listing_lines(entries: &Vec<FsEntry>) -> (r: Vec<Vec<u8>>)
    ensures
        sorted_lex(byte_views(r@)),
        byte_views(r@).to_multiset() == listing_views(entries@).to_multiset(),
{
    let mut lines: Vec<Vec<u8>> = Vec::new();
    let mut i: usize = 0;
    proof {
        assert(entries@.take(0) =~= Seq::<FsEntry>::empty());
        assert(byte_views(lines@) =~= listing_views(entries@.take(0)));
    }
    while i < entries.len()
        invariant
            i <= entries@.len(),
            byte_views(lines@) == listing_views(entries@.take(i as int)),
        decreases entries@.len() - i,
    {
        let e = &entries[i];
        proof {
            assert(entries@.take(i + 1).drop_last() =~= entries@.take(i as int));
            assert(entries@.take(i + 1).last() == entries@[i as int]);
        }
        let skip = !e.name.as_str().is_empty() && e.name.as_str().get_char(0) == '.';
        if !skip {
            let line = build_line(&e.name, e.is_dir);
            proof {
                assert(byte_views(lines@.push(line)) =~= byte_views(lines@).push(line@));
                assert(byte_views(lines@.push(line)) =~= listing_views(entries@.take(i + 1)));
            }
            lines.push(line);
        } else {
            proof {
                assert(byte_views(lines@) =~= listing_views(entries@.take(i + 1)));
            }
        }
        i = i + 1;
    }
    proof {
        assert(entries@.take(entries@.len() as int) =~= entries@);
    }
    sort_lines(lines)
}

} // verus!
