//! Text utilities: the bridge from bytes to strings, decimal digits, and
//! the lexicographic order on byte sequences.

use vstd::prelude::*;
use vstd::string::StrSliceExecFns;
use vstd::utf8::*;

verus! {

/// The characters that a sequence of ASCII bytes stands for.
pub open spec fn ascii_chars_of(bytes: Seq<u8>) -> Seq<char> {
    Seq::new(bytes.len(), |i: int| bytes[i] as char)
}

/// Relies on `std::str::from_utf8`: it returns `Ok` exactly when the
/// bytes are valid UTF-8, and the returned string holds those very bytes.
#[verifier::external_body]
pub(crate) fn bytes_to_string(v: &[u8]) -> (r: Option<String>)
    ensures
        r is Some <==> valid_utf8(v@),
        r matches Some(s) ==> s@ == decode_utf8(v@),
{
    std::str::from_utf8(v).ok().map(str::to_owned)
}

/// A sequence of bytes below 0x80 is valid UTF-8 and decodes to the
/// characters it spells.
pub proof fn lemma_ascii_decode(bytes: Seq<u8>)
    requires
        forall|i: int| 0 <= i < bytes.len() ==> bytes[i] < 0x80,
    ensures
        valid_utf8(bytes),
        decode_utf8(bytes) == ascii_chars_of(bytes),
        is_ascii_chars(ascii_chars_of(bytes)),
{
    let cs = ascii_chars_of(bytes);
    assert forall|i: int| 0 <= i < cs.len() implies '\0' <= #[trigger] cs[i] <= '\u{7f}' by {
        assert(bytes[i] < 0x80);
    }
    assert(is_ascii_chars(cs));
    is_ascii_chars_encode_utf8(cs);
    assert(encode_utf8(cs) =~= bytes);
    encode_utf8_valid_utf8(cs);
    encode_utf8_decode_utf8(cs);
}

/// Turn ASCII bytes into the string they spell.
pub fn ascii_to_string(v: Vec<u8>) -> (r: String)
    requires
        forall|i: int| 0 <= i < v@.len() ==> v@[i] < 0x80,
    ensures
        r@ == ascii_chars_of(v@),
{
    proof {
        lemma_ascii_decode(v@);
    }
    match bytes_to_string(v.as_slice()) {
        Some(s) => s,
        None => vstd::pervasive::unreached(),
    }
}

/// The decimal digits of a number, most significant first.
pub open spec fn dec_rep(n: int) -> Seq<u8>
    decreases n,
{
    if n < 10 {
        seq![(0x30 + if n >= 0 { n } else { 0 }) as u8]
    } else {
        dec_rep(n / 10) + seq![(0x30 + n % 10) as u8]
    }
}

/// Decimal digits are ASCII.
pub proof fn lemma_dec_rep_ascii(n: int)
    ensures
        forall|i: int| 0 <= i < dec_rep(n).len() ==> 0x30 <= #[trigger] dec_rep(n)[i] <= 0x39,
    decreases n,
{
    if n >= 10 {
        lemma_dec_rep_ascii(n / 10);
        let pre = dec_rep(n / 10);
        assert forall|i: int| 0 <= i < dec_rep(n).len() implies 0x30 <= #[trigger] dec_rep(n)[i]
            <= 0x39 by {
            if i < pre.len() {
                assert(dec_rep(n)[i] == pre[i]);
            } else {
                assert(dec_rep(n)[i] == (0x30 + n % 10) as u8);
            }
        }
    }
}

/// Append the decimal digits of a number.
pub fn push_dec(n: u16, out: &mut Vec<u8>)
    ensures
        final(out)@ == old(out)@ + dec_rep(n as int),
    decreases n,
{
    if n >= 10 {
        push_dec(n / 10, out);
        out.push(0x30 + (n % 10) as u8);
        proof {
            assert(final(out)@ =~= old(out)@ + dec_rep(n as int));
        }
    } else {
        out.push(0x30 + n as u8);
        proof {
            assert(final(out)@ =~= old(out)@ + dec_rep(n as int));
        }
    }
}

/// The decimal digits of a number, as characters.
pub open spec fn dec_chars(n: int) -> Seq<char> {
    ascii_chars_of(dec_rep(n))
}

/// The string of decimal digits of a number.
pub fn u16_to_string(n: u16) -> (r: String)
    ensures
        r@ == dec_chars(n as int),
{
    let mut digits: Vec<u8> = Vec::new();
    push_dec(n, &mut digits);
    proof {
        lemma_dec_rep_ascii(n as int);
    }
    ascii_to_string(digits)
}

/// Lexicographic order on byte sequences: `a` comes no later than `b`.
pub open spec fn lex_le(a: Seq<u8>, b: Seq<u8>) -> bool
    decreases a.len(),
{
    a.len() == 0 || (b.len() > 0 && (a[0] < b[0] || (a[0] == b[0] && lex_le(
        a.skip(1),
        b.skip(1),
    ))))
}

/// The lexicographic order is total.
pub proof fn lemma_lex_total(a: Seq<u8>, b: Seq<u8>)
    ensures
        lex_le(a, b) || lex_le(b, a),
    decreases a.len(),
{
    if a.len() > 0 && b.len() > 0 && a[0] == b[0] {
        lemma_lex_total(a.skip(1), b.skip(1));
    }
}

/// The lexicographic order is antisymmetric.
pub proof fn lemma_lex_antisym(a: Seq<u8>, b: Seq<u8>)
    requires
        lex_le(a, b),
        lex_le(b, a),
    ensures
        a == b,
    decreases a.len(),
{
    if a.len() == 0 {
        assert(a =~= b);
    } else {
        assert(a[0] == b[0]);
        lemma_lex_antisym(a.skip(1), b.skip(1));
        assert forall|i: int| 0 <= i < a.len() implies a[i] == b[i] by {
            if i > 0 {
                assert(a[i] == a.skip(1)[i - 1]);
                assert(b[i] == b.skip(1)[i - 1]);
            }
        }
        assert(a =~= b);
    }
}

/// The lexicographic order is transitive.
pub proof fn lemma_lex_trans(a: Seq<u8>, b: Seq<u8>, c: Seq<u8>)
    requires
        lex_le(a, b),
        lex_le(b, c),
    ensures
        lex_le(a, c),
    decreases a.len(),
{
    if a.len() > 0 && b.len() > 0 && c.len() > 0 && a[0] == b[0] && b[0] == c[0] {
        lemma_lex_trans(a.skip(1), b.skip(1), c.skip(1));
    }
}

/// How the order is decided at the first position where one sequence ends
/// or the two differ, given equal prefixes before it.
pub proof fn lemma_lex_at(a: Seq<u8>, b: Seq<u8>, i: int)
    requires
        0 <= i <= a.len(),
        i <= b.len(),
        a.take(i) == b.take(i),
    ensures
        i == a.len() ==> lex_le(a, b),
        i < a.len() && i == b.len() ==> !lex_le(a, b),
        i < a.len() && i < b.len() && a[i] < b[i] ==> lex_le(a, b),
        i < a.len() && i < b.len() && a[i] > b[i] ==> !lex_le(a, b),
    decreases i,
{
    if i == 0 {
    } else {
        assert(a.take(i)[0] == a[0]);
        assert(b.take(i)[0] == b[0]);
        assert(a[0] == b[0]);
        assert(a.skip(1).take(i - 1) =~= a.take(i).skip(1));
        assert(b.skip(1).take(i - 1) =~= b.take(i).skip(1));
        lemma_lex_at(a.skip(1), b.skip(1), i - 1);
        assert(i < a.len() && i < b.len() ==> a.skip(1)[i - 1] == a[i] && b.skip(1)[i - 1] == b[i]);
    }
}

/// Compare two byte vectors in lexicographic order.
pub fn bytes_le(a: &Vec<u8>, b: &Vec<u8>) -> (r: bool)
    ensures
        r == lex_le(a@, b@),
{
    let mut i: usize = 0;
    loop
        invariant
            i <= a@.len(),
            i <= b@.len(),
            a@.take(i as int) == b@.take(i as int),
        decreases a@.len() - i,
    {
        proof {
            lemma_lex_at(a@, b@, i as int);
        }
        if i == a.len() {
            return true;
        }
        if i == b.len() {
            return false;
        }
        if a[i] < b[i] {
            return true;
        }
        if a[i] > b[i] {
            return false;
        }
        proof {
            assert(a@.take(i + 1) =~= b@.take(i + 1));
        }
        i = i + 1;
    }
}

/// The views of a vector of strings.
pub open spec fn str_views(v: Seq<String>) -> Seq<Seq<char>> {
    Seq::new(v.len(), |i: int| v[i]@)
}

/// Split a character sequence at every occurrence of a separator, as
/// `str::split` does: the result always has one more element than the
/// sequence has separators.
pub open spec fn split_sep(s: Seq<char>, sep: char) -> Seq<Seq<char>>
    decreases s.len(),
{
    if s.len() == 0 {
        seq![Seq::<char>::empty()]
    } else if s[0] == sep {
        seq![Seq::<char>::empty()] + split_sep(s.skip(1), sep)
    } else {
        let r = split_sep(s.skip(1), sep);
        seq![seq![s[0]] + r[0]] + r.skip(1)
    }
}

/// Splitting never yields an empty result.
pub proof fn lemma_split_sep_nonempty(s: Seq<char>, sep: char)
    ensures
        split_sep(s, sep).len() >= 1,
    decreases s.len(),
{
    if s.len() > 0 {
        lemma_split_sep_nonempty(s.skip(1), sep);
    }
}

/// How splitting decomposes at the first separator at or after a clean
/// prefix.
pub proof fn lemma_split_sep_prefix(s: Seq<char>, sep: char, k: int)
    requires
        0 <= k <= s.len(),
        forall|j: int| 0 <= j < k ==> s[j] != sep,
    ensures
        k == s.len() ==> split_sep(s, sep) == seq![s],
        k < s.len() && s[k] == sep ==> split_sep(s, sep) == seq![s.take(k)] + split_sep(
            s.skip(k + 1),
            sep,
        ),
    decreases k,
{
    lemma_split_sep_nonempty(s, sep);
    if k == 0 {
        if s.len() == 0 {
            assert(s =~= Seq::<char>::empty());
            assert(split_sep(s, sep) =~~= seq![s]);
        } else if s[0] == sep {
            assert(s.take(0) =~= Seq::<char>::empty());
            assert(split_sep(s, sep) =~= seq![s.take(0)] + split_sep(s.skip(1), sep));
        }
    } else {
        let tail = s.skip(1);
        assert(forall|j: int| 0 <= j < k - 1 ==> tail[j] == s[j + 1] && s[j + 1] != sep);
        lemma_split_sep_prefix(tail, sep, k - 1);
        lemma_split_sep_nonempty(tail, sep);
        assert(s[0] != sep);
        let r = split_sep(tail, sep);
        if k == s.len() {
            assert(r == seq![tail]);
            assert(seq![s[0]] + r[0] =~= s);
            assert(r[0] == tail);
            assert(r.skip(1) =~= Seq::<Seq<char>>::empty());
            assert(split_sep(s, sep) =~~= seq![s]);
        } else if s[k] == sep {
            assert(tail[k - 1] == sep);
            assert(r == seq![tail.take(k - 1)] + split_sep(tail.skip(k), sep));
            assert(r[0] == tail.take(k - 1));
            assert(seq![s[0]] + tail.take(k - 1) =~= s.take(k));
            assert(r.skip(1) =~= split_sep(tail.skip(k), sep));
            assert(tail.skip(k) =~= s.skip(k + 1));
            assert(split_sep(s, sep) =~= seq![s.take(k)] + split_sep(s.skip(k + 1), sep));
        }
    }
}

/// Split a string at every occurrence of a separator.
pub fn split_string(s: &str, sep: char) -> (r: Vec<String>)
    ensures
        str_views(r@) == split_sep(s@, sep),
{
    let n = s.unicode_len();
    let mut out: Vec<String> = Vec::new();
    let mut start: usize = 0;
    let mut i: usize = 0;
    proof {
        assert(str_views(out@) =~= Seq::<Seq<char>>::empty());
        assert(s@.skip(0) =~= s@);
        assert(split_sep(s@, sep) =~= str_views(out@) + split_sep(s@.skip(0), sep));
    }
    loop
        invariant
            start <= i <= n,
            n == s@.len(),
            split_sep(s@, sep) == str_views(out@) + split_sep(s@.skip(start as int), sep),
            forall|j: int| start <= j < i ==> s@[j] != sep,
        decreases n - i,
    {
        proof {
            assert(forall|j: int|
                0 <= j < i - start ==> #[trigger] s@.skip(start as int)[j] == s@[j + start]);
        }
        if i == n {
            let piece = s.substring_char(start, i).to_owned();
            proof {
                lemma_split_sep_prefix(s@.skip(start as int), sep, i - start as int);
                assert(s@.skip(start as int) =~= s@.subrange(start as int, i as int));
                assert(str_views(out@.push(piece)) =~= str_views(out@) + seq![piece@]);
                assert(str_views(out@.push(piece)) =~= split_sep(s@, sep));
            }
            out.push(piece);
            return out;
        }
        if s.get_char(i) == sep {
            let piece = s.substring_char(start, i).to_owned();
            proof {
                let sub = s@.skip(start as int);
                assert(sub[i - start] == s@[i as int]);
                lemma_split_sep_prefix(sub, sep, i - start as int);
                assert(sub.take(i - start) =~= s@.subrange(start as int, i as int));
                assert(sub.skip(i - start + 1) =~= s@.skip(i + 1));
                assert(str_views(out@.push(piece)) =~= str_views(out@) + seq![piece@]);
                assert(split_sep(s@, sep) =~= str_views(out@.push(piece)) + split_sep(
                    s@.skip(i + 1),
                    sep,
                ));
            }
            out.push(piece);
            start = i + 1;
        }
        i = i + 1;
    }
}

} // verus!
