//! The managed block and its idempotent upsert.
//!
//! A destination file owns at most one managed region, the text between
//! a fixed begin-marker line and the first end-marker line after it.
//! `upsert_spec` is the full mathematical description of the merge;
//! `upsert_block` computes it.

use vstd::prelude::*;

use crate::text::{
    byte_free, contains_sub, crlf, crlf_free, find_bytes_from, find_sub, is_blank, is_blank_bytes,
    is_ws,
    lemma_byte_free_iff, lemma_cr_free_implies_crlf_free, lemma_crlf_free_concat,
    lemma_find_from_unique, lemma_find_sub_spec, lemma_is_blank_iff, lemma_matches_at_byte,
    lemma_matches_at_iff, lemma_matches_concat_cases, lemma_matches_concat_left,
    lemma_matches_concat_right, lemma_matches_subrange, lemma_normalize_id,
    lemma_trim_nl_back_range, lemma_trim_nl_back_shape, lemma_trim_nl_front_range,
    lemma_trim_nl_front_shape, lemma_trim_nl_shape, matches_at, nl, normalize, normalize_bytes,
    push_all, subvec, trim_nl, trim_nl_back, trim_nl_bytes, trim_nl_front,
};

verus! {

/// The begin-marker line, `# skills-sync:subagents:begin`.
pub open spec fn begin_marker() -> Seq<u8> {
    seq![35u8, 32u8, 115u8, 107u8, 105u8, 108u8, 108u8, 115u8, 45u8, 115u8, 121u8, 110u8, 99u8, 58u8, 115u8, 117u8, 98u8, 97u8, 103u8, 101u8, 110u8, 116u8, 115u8, 58u8, 98u8, 101u8, 103u8, 105u8, 110u8]
}

/// The end-marker line, `# skills-sync:subagents:end`.
pub open spec fn end_marker() -> Seq<u8> {
    seq![35u8, 32u8, 115u8, 107u8, 105u8, 108u8, 108u8, 115u8, 45u8, 115u8, 121u8, 110u8, 99u8, 58u8, 115u8, 117u8, 98u8, 97u8, 103u8, 101u8, 110u8, 116u8, 115u8, 58u8, 101u8, 110u8, 100u8]
}

/// The placeholder comment, `# No managed subagent entries`, written when no definitions
/// remain.
pub open spec fn placeholder_line() -> Seq<u8> {
    seq![35u8, 32u8, 78u8, 111u8, 32u8, 109u8, 97u8, 110u8, 97u8, 103u8, 101u8, 100u8, 32u8, 115u8, 117u8, 98u8, 97u8, 103u8, 101u8, 110u8, 116u8, 32u8, 101u8, 110u8, 116u8, 114u8, 105u8, 101u8, 115u8]
}

/// The begin-marker line as a byte vector.
pub fn begin_marker_bytes() -> (r: Vec<u8>)
    ensures
        r@ == begin_marker(),
{
    let mut v: Vec<u8> = Vec::new();
    v.push(35); v.push(32); v.push(115); v.push(107); v.push(105); v.push(108); v.push(108); v.push(115); v.push(45); v.push(115); v.push(121); v.push(110);
    v.push(99); v.push(58); v.push(115); v.push(117); v.push(98); v.push(97); v.push(103); v.push(101); v.push(110); v.push(116); v.push(115); v.push(58);
    v.push(98); v.push(101); v.push(103); v.push(105); v.push(110);
    proof {
        assert(v@ =~= begin_marker());
    }
    v
}

/// The end-marker line as a byte vector.
pub fn end_marker_bytes() -> (r: Vec<u8>)
    ensures
        r@ == end_marker(),
{
    let mut v: Vec<u8> = Vec::new();
    v.push(35); v.push(32); v.push(115); v.push(107); v.push(105); v.push(108); v.push(108); v.push(115); v.push(45); v.push(115); v.push(121); v.push(110);
    v.push(99); v.push(58); v.push(115); v.push(117); v.push(98); v.push(97); v.push(103); v.push(101); v.push(110); v.push(116); v.push(115); v.push(58);
    v.push(101); v.push(110); v.push(100);
    proof {
        assert(v@ =~= end_marker());
    }
    v
}

/// The placeholder comment as a byte vector.
pub fn placeholder_bytes() -> (r: Vec<u8>)
    ensures
        r@ == placeholder_line(),
{
    let mut v: Vec<u8> = Vec::new();
    v.push(35); v.push(32); v.push(78); v.push(111); v.push(32); v.push(109); v.push(97); v.push(110); v.push(97); v.push(103); v.push(101); v.push(100);
    v.push(32); v.push(115); v.push(117); v.push(98); v.push(97); v.push(103); v.push(101); v.push(110); v.push(116); v.push(32); v.push(101); v.push(110);
    v.push(116); v.push(114); v.push(105); v.push(101); v.push(115);
    proof {
        assert(v@ =~= placeholder_line());
    }
    v
}

/// Ground facts about the three marker lines: their single-line shape,
/// that no end marker hides inside the begin marker or the
/// placeholder, and that the begin marker starts with a visible byte.
pub proof fn lemma_marker_facts()
    ensures
        begin_marker().len() == 29,
        end_marker().len() == 27,
        placeholder_line().len() == 29,
        byte_free(begin_marker(), 10),
        byte_free(begin_marker(), 13),
        byte_free(end_marker(), 10),
        byte_free(end_marker(), 13),
        byte_free(placeholder_line(), 10),
        byte_free(placeholder_line(), 13),
        !is_ws(begin_marker()[0]),
        begin_marker()[begin_marker().len() - 1] != 13,
        end_marker()[end_marker().len() - 1] != 13,
        forall|i: int| !(#[trigger] matches_at(begin_marker(), end_marker(), i)),
        forall|i: int| !(#[trigger] matches_at(placeholder_line(), end_marker(), i)),
{
    assert(byte_free(begin_marker(), 10) && byte_free(begin_marker(), 13)) by {
        reveal_with_fuel(byte_free, 31);
    }
    assert(byte_free(end_marker(), 10) && byte_free(end_marker(), 13)) by {
        reveal_with_fuel(byte_free, 31);
    }
    assert(byte_free(placeholder_line(), 10) && byte_free(placeholder_line(), 13)) by {
        reveal_with_fuel(byte_free, 31);
    }
    assert forall|i: int| !(#[trigger] matches_at(begin_marker(), end_marker(), i)) by {
        lemma_matches_at_iff(begin_marker(), end_marker(), i);
        if matches_at(begin_marker(), end_marker(), i) {
            assert(0 <= i <= 2);
            if i == 0 {
                assert(begin_marker()[24] == end_marker()[24]);
            } else if i == 1 {
                assert(begin_marker()[1] == end_marker()[0]);
            } else {
                assert(begin_marker()[2] == end_marker()[0]);
            }
        }
    }
    assert forall|i: int| !(#[trigger] matches_at(placeholder_line(), end_marker(), i)) by {
        lemma_matches_at_iff(placeholder_line(), end_marker(), i);
        if matches_at(placeholder_line(), end_marker(), i) {
            assert(0 <= i <= 2);
            if i == 0 {
                assert(placeholder_line()[2] == end_marker()[2]);
            } else if i == 1 {
                assert(placeholder_line()[1] == end_marker()[0]);
            } else {
                assert(placeholder_line()[2] == end_marker()[0]);
            }
        }
    }
}

/// The body actually embedded: a blank body becomes the placeholder.
pub open spec fn effective_body(body: Seq<u8>) -> Seq<u8> {
    if is_blank(body) {
        placeholder_line()
    } else {
        body
    }
}

/// The replacement block: begin marker, body or placeholder, end
/// marker, joined by line feeds.
pub open spec fn block_of(body: Seq<u8>) -> Seq<u8> {
    begin_marker() + nl() + effective_body(body) + nl() + end_marker()
}

/// The merged text: the first marker pair of the normalized current
/// text is replaced by the new block; text before and after it is kept,
/// trimmed of blank lines at the two seams.  Without a marker pair the
/// block is appended after the trimmed current text; a blank current
/// text becomes the block alone.
pub open spec fn upsert_spec(current: Seq<u8>, body: Seq<u8>) -> Seq<u8> {
    let block = block_of(body);
    if is_blank(current) {
        block + nl()
    } else {
        let n = normalize(current);
        let fallback = trim_nl(n) + nl() + nl() + block + nl();
        match find_sub(n, begin_marker()) {
            Some(bi) => match find_sub(n.skip(bi), end_marker()) {
                Some(e) => {
                    let end_abs = bi + e + end_marker().len();
                    let prefix = trim_nl(n.take(bi));
                    let suffix = trim_nl(n.skip(end_abs));
                    if prefix.len() == 0 && suffix.len() == 0 {
                        block + nl()
                    } else if prefix.len() == 0 {
                        block + nl() + nl() + suffix + nl()
                    } else if suffix.len() == 0 {
                        prefix + nl() + nl() + block + nl()
                    } else {
                        prefix + nl() + nl() + block + nl() + nl() + suffix + nl()
                    }
                },
                None => fallback,
            },
            None => fallback,
        }
    }
}

/// Containment: when the current text carries a marker pair, the merge
/// keeps every byte strictly outside the pair.  The text before the
/// first begin marker and the text after the matching end marker come
/// back whole, trimmed only of blank lines at the two seams, with the
/// new block between them.
pub proof fn lemma_upsert_preserves_outside(current: Seq<u8>, body: Seq<u8>)
    requires
        !is_blank(current),
        find_sub(normalize(current), begin_marker()) is Some,
        find_sub(
            normalize(current).skip(find_sub(normalize(current), begin_marker())->Some_0),
            end_marker(),
        ) is Some,
    ensures
        ({
            let n = normalize(current);
            let bi = find_sub(n, begin_marker())->Some_0;
            let e = find_sub(n.skip(bi), end_marker())->Some_0;
            let prefix = trim_nl(n.take(bi));
            let suffix = trim_nl(n.skip(bi + e + end_marker().len()));
            let r = upsert_spec(current, body);
            &&& (prefix.len() > 0 ==> r.take(prefix.len() as int) == prefix)
            &&& (suffix.len() > 0 ==> r.subrange(r.len() as int - suffix.len() as int - 1, r.len() as int - 1)
                == suffix)
            &&& (prefix.len() > 0 ==> r == prefix + nl() + nl() + r.skip(prefix.len() as int + 2))
        }),
{
    let n = normalize(current);
    let bi = find_sub(n, begin_marker())->Some_0;
    let e = find_sub(n.skip(bi), end_marker())->Some_0;
    let prefix = trim_nl(n.take(bi));
    let suffix = trim_nl(n.skip(bi + e + end_marker().len()));
    let r = upsert_spec(current, body);
    let block = block_of(body);
    if prefix.len() == 0 && suffix.len() == 0 {
    } else if prefix.len() == 0 {
        assert(r == block + nl() + nl() + suffix + nl());
        assert(r.subrange(r.len() as int - suffix.len() as int - 1, r.len() as int - 1) =~= suffix);
    } else if suffix.len() == 0 {
        assert(r == prefix + nl() + nl() + block + nl());
        assert(r.take(prefix.len() as int) =~= prefix);
        assert(r == prefix + nl() + nl() + r.skip(prefix.len() as int + 2)) by {
            assert(r.skip(prefix.len() as int + 2) =~= block + nl());
            assert(prefix + nl() + nl() + (block + nl()) =~= prefix + nl() + nl() + block
                + nl());
        }
    } else {
        assert(r == prefix + nl() + nl() + block + nl() + nl() + suffix + nl());
        assert(r.take(prefix.len() as int) =~= prefix);
        assert(r.subrange(r.len() as int - suffix.len() as int - 1, r.len() as int - 1) =~= suffix);
        assert(r == prefix + nl() + nl() + r.skip(prefix.len() as int + 2)) by {
            assert(r.skip(prefix.len() as int + 2) =~= block + nl() + nl() + suffix + nl());
            assert(prefix + nl() + nl() + (block + nl() + nl() + suffix + nl()) =~= prefix + nl()
                + nl() + block + nl() + nl() + suffix + nl());
        }
    }
}

/// Stale cleanup: a blank body always embeds the placeholder line, and
/// a destination that is nothing but its managed region is rewritten to
/// the three lines begin marker, placeholder, end marker.
pub proof fn lemma_upsert_stale_cleanup(current: Seq<u8>, body: Seq<u8>)
    requires
        is_blank(body),
    ensures
        block_of(body) == begin_marker() + nl() + placeholder_line() + nl() + end_marker(),
        is_blank(current) ==> upsert_spec(current, body) == block_of(body) + nl(),
        ({
            let n = normalize(current);
            match find_sub(n, begin_marker()) {
                Some(bi) => match find_sub(n.skip(bi), end_marker()) {
                    Some(e) => trim_nl(n.take(bi)).len() == 0 && trim_nl(
                        n.skip(bi + e + end_marker().len()),
                    ).len() == 0 ==> upsert_spec(current, body) == block_of(body) + nl(),
                    None => true,
                },
                None => true,
            }
        }),
{
}

/// Appending a line feed to `s` creates no `crlf` pair: `s` has none
/// and does not end in a carriage return.
pub open spec fn seam_safe(s: Seq<u8>) -> bool {
    crlf_free(s) && (s.len() > 0 ==> s[s.len() - 1] != 13)
}

/// The texts and bodies on which the merge is a fixed point: the
/// embedded body holds no end marker and no `crlf` seam, and the
/// current text either lacks the begin marker or carries a full marker
/// pair, with `crlf`-clean seams.  On every other input a second merge
/// can move or lose text.
pub open spec fn upsert_stable(current: Seq<u8>, body: Seq<u8>) -> bool {
    let eb = effective_body(body);
    &&& forall|i: int| !(#[trigger] matches_at(eb, end_marker(), i))
    &&& seam_safe(eb)
    &&& (!is_blank(current) ==> {
        let n = normalize(current);
        match find_sub(n, begin_marker()) {
            Some(bi) => match find_sub(n.skip(bi), end_marker()) {
                Some(e) => seam_safe(trim_nl(n.take(bi))) && seam_safe(
                    trim_nl(n.skip(bi + e + end_marker().len() as int)),
                ),
                None => false,
            },
            None => seam_safe(trim_nl(n)),
        }
    })
}

proof fn lemma_byte_free_trim(s: Seq<u8>, b: u8)
    requires
        byte_free(s, b),
    ensures
        byte_free(trim_nl(s), b),
{
    lemma_trim_nl_front_shape(s);
    lemma_trim_nl_back_shape(trim_nl_front(s));
    lemma_byte_free_iff(s, b);
    lemma_byte_free_iff(trim_nl(s), b);
    assert forall|i: int| 0 <= i < trim_nl(s).len() implies trim_nl(s)[i] != b by {
        assert(trim_nl(s)[i] == trim_nl_front(s)[i]);
        assert(trim_nl_front(s)[i] == s[s.len() - trim_nl_front(s).len() + i]);
    }
}

proof fn lemma_seam_safe_of_cr_free(s: Seq<u8>)
    requires
        byte_free(s, 13),
    ensures
        seam_safe(s),
{
    lemma_cr_free_implies_crlf_free(s);
    lemma_byte_free_iff(s, 13);
}

/// The stability conditions reduce to three plain facts when neither
/// the text nor the body holds a carriage return: the embedded body
/// must not hold the end marker, and a begin marker in the text must
/// have an end marker after it.
pub proof fn lemma_upsert_stable_without_cr(current: Seq<u8>, body: Seq<u8>)
    requires
        byte_free(current, 13),
        byte_free(body, 13),
        forall|i: int| !(#[trigger] matches_at(effective_body(body), end_marker(), i)),
        !is_blank(current) ==> (match find_sub(normalize(current), begin_marker()) {
            Some(bi) => find_sub(normalize(current).skip(bi), end_marker()) is Some,
            None => true,
        }),
    ensures
        upsert_stable(current, body),
{
    lemma_marker_facts();
    let eb = effective_body(body);
    lemma_seam_safe_of_cr_free(eb);
    lemma_cr_free_implies_crlf_free(current);
    lemma_normalize_id(current);
    let n = normalize(current);
    lemma_byte_free_iff(current, 13);
    if !is_blank(current) {
        match find_sub(n, begin_marker()) {
            Some(bi) => {
                lemma_find_sub_spec(n, begin_marker());
                let ei = find_sub(n.skip(bi), end_marker())->Some_0;
                let end_abs = bi + ei + end_marker().len();
                lemma_find_sub_spec(n.skip(bi), end_marker());
                assert(byte_free(n.take(bi), 13)) by {
                    lemma_byte_free_iff(n.take(bi), 13);
                }
                assert(byte_free(n.skip(end_abs as int), 13)) by {
                    lemma_byte_free_iff(n.skip(end_abs as int), 13);
                }
                lemma_byte_free_trim(n.take(bi), 13);
                lemma_byte_free_trim(n.skip(end_abs as int), 13);
                lemma_seam_safe_of_cr_free(trim_nl(n.take(bi)));
                lemma_seam_safe_of_cr_free(trim_nl(n.skip(end_abs as int)));
            },
            None => {
                lemma_byte_free_trim(n, 13);
                lemma_seam_safe_of_cr_free(trim_nl(n));
            },
        }
    }
}

proof fn lemma_crlf_free_short(s: Seq<u8>)
    requires
        s.len() < 2,
    ensures
        crlf_free(s),
{
    assert forall|i: int| !matches_at(s, crlf(), i) by {
        lemma_matches_at_iff(s, crlf(), i);
    }
}

proof fn lemma_nonblank_normalize(s: Seq<u8>)
    requires
        !is_blank(s),
    ensures
        !is_blank(normalize(s)),
    decreases s.len(),
{
    lemma_is_blank_iff(s);
    let i = choose|i: int| 0 <= i < s.len() && !is_ws(s[i]);
    if s.len() >= 2 && s[0] == 13 && s[1] == 10 {
        assert(!is_blank(s.skip(2))) by {
            lemma_is_blank_iff(s.skip(2));
            assert(s.skip(2)[i - 2] == s[i]);
        }
        lemma_nonblank_normalize(s.skip(2));
        lemma_is_blank_iff(normalize(s.skip(2)));
        let j = choose|j: int|
            0 <= j < normalize(s.skip(2)).len() && !is_ws(normalize(s.skip(2))[j]);
        lemma_is_blank_iff(nl() + normalize(s.skip(2)));
        assert((nl() + normalize(s.skip(2)))[1 + j] == normalize(s.skip(2))[j]);
    } else {
        if i == 0 {
            lemma_is_blank_iff(seq![s[0]] + normalize(s.skip(1)));
            assert((seq![s[0]] + normalize(s.skip(1)))[0] == s[0]);
        } else {
            assert(!is_blank(s.skip(1))) by {
                lemma_is_blank_iff(s.skip(1));
                assert(s.skip(1)[i - 1] == s[i]);
            }
            lemma_nonblank_normalize(s.skip(1));
            lemma_is_blank_iff(normalize(s.skip(1)));
            let j = choose|j: int|
                0 <= j < normalize(s.skip(1)).len() && !is_ws(normalize(s.skip(1))[j]);
            lemma_is_blank_iff(seq![s[0]] + normalize(s.skip(1)));
            assert((seq![s[0]] + normalize(s.skip(1)))[1 + j] == normalize(s.skip(1))[j]);
        }
    }
}

proof fn lemma_nonblank_trim_front(s: Seq<u8>)
    requires
        !is_blank(s),
    ensures
        !is_blank(trim_nl_front(s)),
    decreases s.len(),
{
    if s.len() > 0 && s[0] == 10 {
        assert(!is_blank(s.skip(1))) by {
            lemma_is_blank_iff(s);
            lemma_is_blank_iff(s.skip(1));
            let i = choose|i: int| 0 <= i < s.len() && !is_ws(s[i]);
            assert(s.skip(1)[i - 1] == s[i]);
        }
        lemma_nonblank_trim_front(s.skip(1));
    }
}

proof fn lemma_nonblank_trim_back(s: Seq<u8>)
    requires
        !is_blank(s),
    ensures
        !is_blank(trim_nl_back(s)),
    decreases s.len(),
{
    if s.len() > 0 && s[s.len() - 1] == 10 {
        assert(!is_blank(s.take(s.len() - 1))) by {
            lemma_is_blank_iff(s);
            lemma_is_blank_iff(s.take(s.len() - 1));
            let i = choose|i: int| 0 <= i < s.len() && !is_ws(s[i]);
            assert(s.take(s.len() - 1)[i] == s[i]);
        }
        lemma_nonblank_trim_back(s.take(s.len() - 1));
    }
}

/// An occurrence in a trimmed text maps back into the text.
proof fn lemma_matches_in_trim(x: Seq<u8>, nn: Seq<u8>, j: int)
    requires
        matches_at(trim_nl(x), nn, j),
    ensures
        matches_at(x, nn, x.len() - trim_nl_front(x).len() + j),
{
    let f = trim_nl_front(x);
    let t = trim_nl(x);
    let off = x.len() - f.len();
    lemma_trim_nl_front_shape(x);
    lemma_trim_nl_back_shape(f);
    lemma_matches_at_iff(t, nn, j);
    lemma_matches_at_iff(x, nn, off + j);
    assert forall|k: int| 0 <= k < nn.len() implies x[off + j + k] == nn[k] by {
        assert(t[j + k] == f[j + k]);
        assert(f[j + k] == x[off + (j + k)]);
    }
}

/// A needle without line feeds absent from `p` is absent from
/// `p + "\n\n"`.
proof fn lemma_no_needle_after_seam(p: Seq<u8>, nn: Seq<u8>)
    requires
        byte_free(nn, 10),
        nn.len() > 0,
        forall|i: int| !(#[trigger] matches_at(p, nn, i)),
    ensures
        forall|i: int| !(#[trigger] matches_at(p + nl() + nl(), nn, i)),
{
    lemma_byte_free_iff(nn, 10);
    let a = p + nl() + nl();
    assert forall|i: int| !(#[trigger] matches_at(a, nn, i)) by {
        if matches_at(a, nn, i) {
            lemma_matches_at_iff(a, nn, i);
            if i + nn.len() <= p.len() {
                lemma_matches_concat_left(p, nl() + nl(), nn, i);
                assert(a =~= p + (nl() + nl()));
                assert(matches_at(p, nn, i));
            } else {
                assert(i <= p.len() < i + nn.len() || i <= p.len() + 1 < i + nn.len());
                if i <= p.len() {
                    lemma_matches_at_byte(a, nn, i, p.len() as int);
                    assert(a[p.len() as int] == 10);
                } else {
                    lemma_matches_at_byte(a, nn, i, p.len() as int + 1);
                    assert(a[p.len() as int + 1] == 10);
                }
            }
        }
    }
}

/// Trimming undoes the blank-line seams around a kept piece.
proof fn lemma_trim_seamed(p: Seq<u8>)
    requires
        p.len() > 0,
        p[0] != 10,
        p[p.len() - 1] != 10,
    ensures
        trim_nl(p + nl() + nl()) == p,
{
    let x = p + nl() + nl();
    assert(x[0] == p[0]);
    assert(trim_nl_front(x) == x);
    lemma_trim_nl_back_range(x, p.len() as int);
    assert(x.take(p.len() as int) =~= p);
}

/// Trimming a lone blank line leaves nothing.
proof fn lemma_trim_single_nl()
    ensures
        trim_nl(nl()) =~= Seq::<u8>::empty(),
{
    reveal_with_fuel(trim_nl_front, 3);
    reveal_with_fuel(trim_nl_back, 3);
    assert(nl()[0] == 10);
    assert(nl().skip(1) =~= Seq::<u8>::empty());
}

/// Trimming undoes the seams around a kept suffix.
proof fn lemma_trim_suffix_seam(s: Seq<u8>)
    requires
        s.len() > 0,
        s[0] != 10,
        s[s.len() - 1] != 10,
    ensures
        trim_nl(nl() + nl() + s + nl()) == s,
{
    let x = nl() + nl() + s + nl();
    lemma_trim_nl_front_range(x, 2);
    assert(x.skip(2) =~= s + nl());
    lemma_trim_nl_back_range(s + nl(), s.len() as int);
    assert((s + nl()).take(s.len() as int) =~= s);
}

/// The shape of a merged text `a + block + b`: it is not blank, it
/// normalizes to itself, its first begin marker opens the block, the
/// first end marker after it closes the block, and `a` and `b` are
/// recovered whole around it.
proof fn lemma_merged_shape(a: Seq<u8>, b: Seq<u8>, body: Seq<u8>)
    requires
        forall|i: int| !(#[trigger] matches_at(a, begin_marker(), i)),
        crlf_free(a),
        a.len() > 0 ==> a[a.len() - 1] == 10,
        forall|i: int| !(#[trigger] matches_at(effective_body(body), end_marker(), i)),
        seam_safe(effective_body(body)),
        crlf_free(b),
        b.len() > 0,
        b[0] == 10,
        b[b.len() - 1] == 10,
    ensures
        !is_blank(a + block_of(body) + b),
        normalize(a + block_of(body) + b) == a + block_of(body) + b,
        find_sub(a + block_of(body) + b, begin_marker()) == Some(a.len() as int),
        find_sub((a + block_of(body) + b).skip(a.len() as int), end_marker()) == Some(
            block_of(body).len() - end_marker().len(),
        ),
        (a + block_of(body) + b).take(a.len() as int) == a,
        (a + block_of(body) + b).skip(a.len() as int + block_of(body).len() as int) == b,
        block_of(body).len() > end_marker().len(),
{
    lemma_marker_facts();
    lemma_byte_free_iff(begin_marker(), 10);
    lemma_byte_free_iff(end_marker(), 10);
    let eb = effective_body(body);
    let blk = block_of(body);
    let w = begin_marker() + nl() + eb + nl();
    assert(blk == w + end_marker());
    let r = a + blk + b;
    assert(eb.len() > 0) by {
        if !is_blank(body) {
            lemma_is_blank_iff(body);
        }
    }
    // not blank: the byte at the block's start is '#'
    assert(r[a.len() as int] == 35) by {
        assert(r =~= a + (blk + b));
        assert((a + (blk + b))[a.len() as int] == (blk + b)[0]);
        assert((blk + b)[0] == blk[0]);
        assert(blk[0] == begin_marker()[0]);
    }
    assert(!is_blank(r)) by {
        lemma_is_blank_iff(r);
        assert(!is_ws(35));
    }
    // crlf-freedom of the whole
    lemma_cr_free_implies_crlf_free(begin_marker());
    lemma_cr_free_implies_crlf_free(end_marker());
    lemma_crlf_free_short(nl());
    assert(crlf_free(begin_marker() + nl())) by {
        lemma_crlf_free_concat(begin_marker(), nl());
    }
    assert(crlf_free(begin_marker() + nl() + eb)) by {
        lemma_crlf_free_concat(begin_marker() + nl(), eb);
    }
    assert(crlf_free(w)) by {
        lemma_crlf_free_concat(begin_marker() + nl() + eb, nl());
        assert((begin_marker() + nl() + eb)[(begin_marker() + nl() + eb).len() - 1] != 13);
    }
    assert(crlf_free(blk)) by {
        lemma_crlf_free_concat(w, end_marker());
        assert(w[w.len() - 1] == 10);
    }
    assert(crlf_free(a + blk)) by {
        lemma_crlf_free_concat(a, blk);
    }
    assert(crlf_free(r)) by {
        lemma_crlf_free_concat(a + blk, b);
        assert((a + blk)[(a + blk).len() - 1] == end_marker()[end_marker().len() - 1]);
    }
    lemma_normalize_id(r);
    // the begin marker occurs exactly at the block
    assert(matches_at(begin_marker(), begin_marker(), 0)) by {
        lemma_matches_at_iff(begin_marker(), begin_marker(), 0);
    }
    assert(matches_at(r, begin_marker(), a.len() as int)) by {
        lemma_matches_at_iff(r, begin_marker(), a.len() as int);
        lemma_matches_at_iff(begin_marker(), begin_marker(), 0);
        assert forall|k: int|
            0 <= k < begin_marker().len() implies r[a.len() + k] == begin_marker()[k] by {
            assert(r =~= a + (blk + b));
            assert((a + (blk + b))[a.len() + k] == (blk + b)[k]);
            assert((blk + b)[k] == blk[k]);
            assert(blk =~= begin_marker() + (nl() + eb + nl() + end_marker()));
            assert(blk[k] == begin_marker()[k]);
        }
    }
    assert forall|j: int| 0 <= j < a.len() implies !(#[trigger] matches_at(
        r,
        begin_marker(),
        j,
    )) by {
        if matches_at(r, begin_marker(), j) {
            assert(r =~= a + (blk + b));
            assert(matches_at(a + (blk + b), begin_marker(), j));
            lemma_matches_concat_cases(a, blk + b, begin_marker(), j);
        }
    }
    lemma_find_from_unique(r, begin_marker(), 0, a.len() as int);
    // the end marker occurs exactly at the block's close
    let z = blk + b;
    assert(r.skip(a.len() as int) =~= z);
    assert(matches_at(z, end_marker(), w.len() as int)) by {
        lemma_matches_at_iff(end_marker(), end_marker(), 0);
        lemma_matches_concat_right(w, end_marker(), end_marker(), 0);
        lemma_matches_concat_left(blk, b, end_marker(), w.len() as int);
    }
    assert forall|j: int| 0 <= j < w.len() implies !(#[trigger] matches_at(
        z,
        end_marker(),
        j,
    )) by {
        if matches_at(z, end_marker(), j) {
            assert(z =~= w + (end_marker() + b));
            assert(matches_at(w + (end_marker() + b), end_marker(), j));
            assert(w[w.len() - 1] == 10);
            lemma_matches_concat_cases(w, end_marker() + b, end_marker(), j);
            assert(j + end_marker().len() <= w.len() && matches_at(w, end_marker(), j));
            let bn = begin_marker() + nl();
            assert(w =~= bn + (eb + nl()));
            assert(bn[bn.len() - 1] == 10);
            lemma_matches_concat_cases(bn, eb + nl(), end_marker(), j);
            if j + end_marker().len() <= bn.len() && matches_at(bn, end_marker(), j) {
                if j + end_marker().len() <= begin_marker().len() {
                    lemma_matches_concat_left(begin_marker(), nl(), end_marker(), j);
                    assert(matches_at(begin_marker(), end_marker(), j));
                } else {
                    lemma_matches_at_byte(bn, end_marker(), j, begin_marker().len() as int);
                    assert(bn[begin_marker().len() as int] == 10);
                }
            } else {
                let j2 = j - bn.len();
                assert(matches_at(eb + nl(), end_marker(), j2));
                if j2 + end_marker().len() <= eb.len() {
                    lemma_matches_concat_left(eb, nl(), end_marker(), j2);
                    assert(matches_at(eb, end_marker(), j2));
                } else {
                    lemma_matches_at_byte(eb + nl(), end_marker(), j2, eb.len() as int);
                    assert((eb + nl())[eb.len() as int] == 10);
                }
            }
        }
    }
    lemma_find_from_unique(z, end_marker(), 0, w.len() as int);
    assert(w.len() == blk.len() - end_marker().len());
    assert(r.take(a.len() as int) =~= a);
    assert(r.skip(a.len() as int + blk.len() as int) =~= b);
}

#[verifier::spinoff_prover]
#[verifier::rlimit(100)]
proof fn lemma_upsert_idempotent_blank(current: Seq<u8>, body: Seq<u8>)
    requires
        upsert_stable(current, body),
        is_blank(current),
    ensures
        upsert_spec(upsert_spec(current, body), body) == upsert_spec(current, body),
{
    lemma_marker_facts();
    lemma_byte_free_iff(begin_marker(), 10);
    let blk = block_of(body);
    let r = upsert_spec(current, body);
    let a = Seq::<u8>::empty();
    let b = nl();
    assert(r =~= a + blk + b);
    lemma_merged_shape(a, b, body);
    assert(!is_blank(r));
    assert(normalize(r) == r);
    let bi2 = find_sub(r, begin_marker())->Some_0;
    assert(bi2 == a.len());
    let ei2 = find_sub(r.skip(bi2), end_marker())->Some_0;
    assert(ei2 == blk.len() - end_marker().len());
    let end_abs2 = bi2 + ei2 + end_marker().len();
    assert(end_abs2 == a.len() + blk.len());
    let p2 = trim_nl(r.take(bi2));
    let s2 = trim_nl(r.skip(end_abs2 as int));
    assert(r.take(bi2) == a);
    assert(r.skip(end_abs2 as int) == b);
    assert(p2 =~= Seq::<u8>::empty()) by {
        reveal_with_fuel(trim_nl_front, 2);
        reveal_with_fuel(trim_nl_back, 2);
    }
    lemma_trim_single_nl();
    assert(upsert_spec(r, body) == blk + nl());
}

#[verifier::spinoff_prover]
#[verifier::rlimit(100)]
proof fn lemma_upsert_idempotent_pair(current: Seq<u8>, body: Seq<u8>)
    requires
        upsert_stable(current, body),
        !is_blank(current),
        find_sub(normalize(current), begin_marker()) is Some,
    ensures
        upsert_spec(upsert_spec(current, body), body) == upsert_spec(current, body),
{
    lemma_marker_facts();
    lemma_byte_free_iff(begin_marker(), 10);
    let blk = block_of(body);
    let r = upsert_spec(current, body);
    let n = normalize(current);
    let bi = find_sub(n, begin_marker())->Some_0;
    lemma_find_sub_spec(n, begin_marker());
    let ei = find_sub(n.skip(bi), end_marker())->Some_0;
    let end_abs = bi + ei + end_marker().len();
    let p = trim_nl(n.take(bi));
    let s = trim_nl(n.skip(end_abs as int));
    lemma_trim_nl_shape(n.take(bi));
    lemma_trim_nl_shape(n.skip(end_abs as int));
    assert forall|i: int| !(#[trigger] matches_at(p, begin_marker(), i)) by {
        if matches_at(p, begin_marker(), i) {
            lemma_matches_in_trim(n.take(bi), begin_marker(), i);
            let d = n.take(bi).len() - trim_nl_front(n.take(bi)).len() + i;
            lemma_matches_at_iff(n.take(bi), begin_marker(), d);
            lemma_matches_subrange(n, 0, bi, begin_marker(), d);
            assert(!matches_at(n, begin_marker(), d));
        }
    }
    let a: Seq<u8> = if p.len() == 0 {
        Seq::<u8>::empty()
    } else {
        p + nl() + nl()
    };
    let b: Seq<u8> = if s.len() == 0 {
        nl()
    } else {
        nl() + nl() + s + nl()
    };
    if p.len() > 0 {
        lemma_no_needle_after_seam(p, begin_marker());
        lemma_crlf_free_concat(p, nl());
        lemma_crlf_free_short(nl());
        lemma_crlf_free_concat(p + nl(), nl());
        assert(a =~= (p + nl()) + nl());
    }
    if s.len() == 0 {
        lemma_crlf_free_short(nl());
    } else {
        lemma_crlf_free_short(nl());
        lemma_crlf_free_concat(nl(), nl());
        lemma_crlf_free_concat(nl() + nl(), s);
        lemma_crlf_free_concat(nl() + nl() + s, nl());
        assert(b =~= ((nl() + nl()) + s) + nl());
        assert(b[0] == 10);
        assert(b[b.len() - 1] == 10);
    }
    assert(r =~= a + blk + b);
    lemma_merged_shape(a, b, body);
    assert(!is_blank(r));
    assert(normalize(r) == r);
    let bi2 = find_sub(r, begin_marker())->Some_0;
    assert(bi2 == a.len());
    let ei2 = find_sub(r.skip(bi2), end_marker())->Some_0;
    assert(ei2 == blk.len() - end_marker().len());
    let end_abs2 = bi2 + ei2 + end_marker().len();
    assert(end_abs2 == a.len() + blk.len());
    let p2 = trim_nl(r.take(bi2));
    let s2 = trim_nl(r.skip(end_abs2 as int));
    assert(r.take(bi2) == a);
    assert(r.skip(end_abs2 as int) == b);
    if p.len() == 0 {
        assert(p2 =~= Seq::<u8>::empty()) by {
            reveal_with_fuel(trim_nl_front, 2);
            reveal_with_fuel(trim_nl_back, 2);
        }
    } else {
        lemma_trim_seamed(p);
        assert(p2 == p);
    }
    if s.len() == 0 {
        lemma_trim_single_nl();
        assert(s2 =~= Seq::<u8>::empty());
    } else {
        lemma_trim_suffix_seam(s);
        assert(s2 == s);
    }
    assert(upsert_spec(r, body) == r);
}

#[verifier::spinoff_prover]
#[verifier::rlimit(100)]
proof fn lemma_upsert_idempotent_append(current: Seq<u8>, body: Seq<u8>)
    requires
        upsert_stable(current, body),
        !is_blank(current),
        find_sub(normalize(current), begin_marker()) is None,
    ensures
        upsert_spec(upsert_spec(current, body), body) == upsert_spec(current, body),
{
    lemma_marker_facts();
    lemma_byte_free_iff(begin_marker(), 10);
    let blk = block_of(body);
    let r = upsert_spec(current, body);
    let n = normalize(current);
    lemma_find_sub_spec(n, begin_marker());
    lemma_nonblank_normalize(current);
    lemma_nonblank_trim_front(n);
    lemma_nonblank_trim_back(trim_nl_front(n));
    let t = trim_nl(n);
    assert(!is_blank(t));
    assert(t.len() > 0) by {
        lemma_is_blank_iff(t);
    }
    lemma_trim_nl_shape(n);
    assert forall|i: int| !(#[trigger] matches_at(t, begin_marker(), i)) by {
        if matches_at(t, begin_marker(), i) {
            lemma_matches_in_trim(n, begin_marker(), i);
        }
    }
    let a = t + nl() + nl();
    let b = nl();
    lemma_no_needle_after_seam(t, begin_marker());
    lemma_crlf_free_concat(t, nl());
    lemma_crlf_free_short(nl());
    lemma_crlf_free_concat(t + nl(), nl());
    assert(a =~= (t + nl()) + nl());
    assert(r =~= a + blk + b);
    lemma_merged_shape(a, b, body);
    assert(!is_blank(r));
    assert(normalize(r) == r);
    let bi2 = find_sub(r, begin_marker())->Some_0;
    assert(bi2 == a.len());
    let ei2 = find_sub(r.skip(bi2), end_marker())->Some_0;
    assert(ei2 == blk.len() - end_marker().len());
    let end_abs2 = bi2 + ei2 + end_marker().len();
    assert(end_abs2 == a.len() + blk.len());
    let p2 = trim_nl(r.take(bi2));
    let s2 = trim_nl(r.skip(end_abs2 as int));
    assert(r.take(bi2) == a);
    assert(r.skip(end_abs2 as int) == b);
    lemma_trim_seamed(t);
    assert(p2 == t);
    lemma_trim_single_nl();
    assert(s2 =~= Seq::<u8>::empty());
    assert(upsert_spec(r, body) == r);
}

/// Idempotence: merging the same body twice gives what one merge
/// gives, for every stable text and body.
pub proof fn lemma_upsert_idempotent(current: Seq<u8>, body: Seq<u8>)
    requires
        upsert_stable(current, body),
    ensures
        upsert_spec(upsert_spec(current, body), body) == upsert_spec(current, body),
{
    if is_blank(current) {
        lemma_upsert_idempotent_blank(current, body);
    } else if find_sub(normalize(current), begin_marker()) is Some {
        lemma_upsert_idempotent_pair(current, body);
    } else {
        lemma_upsert_idempotent_append(current, body);
    }
}


/// Builds the replacement block for `body`.
pub fn block_bytes(body: &Vec<u8>) -> (r: Vec<u8>)
    ensures
        r@ == block_of(body@),
{
    let begin = begin_marker_bytes();
    let end = end_marker_bytes();
    let mut block: Vec<u8> = Vec::new();
    push_all(&mut block, &begin);
    block.push(10);
    if is_blank_bytes(body) {
        let p = placeholder_bytes();
        push_all(&mut block, &p);
    } else {
        push_all(&mut block, body);
    }
    block.push(10);
    push_all(&mut block, &end);
    proof {
        assert(block@ =~= block_of(body@));
    }
    block
}

/// Whether a file's text carries the begin marker, and with it a
/// managed region.
pub fn has_subagent_managed_block(text: &Vec<u8>) -> (r: bool)
    ensures
        r == contains_sub(text@, begin_marker()),
{
    let begin = begin_marker_bytes();
    find_bytes_from(text, &begin, 0).is_some()
}

/// Merges `body` into `current` as `upsert_spec` describes.
pub fn upsert_block(current: &Vec<u8>, body: &Vec<u8>) -> (r: Vec<u8>)
    ensures
        r@ == upsert_spec(current@, body@),
{
    let block = block_bytes(body);
    if is_blank_bytes(current) {
        let mut out = block;
        out.push(10);
        proof {
            assert(out@ =~= block_of(body@) + nl());
        }
        return out;
    }
    let begin = begin_marker_bytes();
    let end = end_marker_bytes();
    let n = normalize_bytes(current);
    if let Some(bi) = find_bytes_from(&n, &begin, 0) {
        let tail = subvec(&n, bi, n.len());
        proof {
            assert(tail@ =~= normalize(current@).skip(bi as int));
        }
        if let Some(e) = find_bytes_from(&tail, &end, 0) {
            let end_abs = bi + e + end.len();
            let pre_raw = subvec(&n, 0, bi);
            proof {
                assert(pre_raw@ =~= normalize(current@).take(bi as int));
            }
            let prefix = trim_nl_bytes(&pre_raw);
            let suf_raw = subvec(&n, end_abs, n.len());
            proof {
                assert(suf_raw@ =~= normalize(current@).skip(end_abs as int));
            }
            let suffix = trim_nl_bytes(&suf_raw);
            let mut out: Vec<u8> = Vec::new();
            if prefix.len() > 0 {
                push_all(&mut out, &prefix);
                out.push(10);
                out.push(10);
            }
            push_all(&mut out, &block);
            out.push(10);
            if suffix.len() > 0 {
                out.push(10);
                push_all(&mut out, &suffix);
                out.push(10);
            }
            proof {
                let b = block_of(body@);
                let p = prefix@;
                let s = suffix@;
                if p.len() == 0 && s.len() == 0 {
                    assert(out@ =~= b + nl());
                } else if p.len() == 0 {
                    assert(out@ =~= b + nl() + nl() + s + nl());
                } else if s.len() == 0 {
                    assert(out@ =~= p + nl() + nl() + b + nl());
                } else {
                    assert(out@ =~= p + nl() + nl() + b + nl() + nl() + s + nl());
                }
            }
            return out;
        }
    }
    let trimmed = trim_nl_bytes(&n);
    let mut out: Vec<u8> = Vec::new();
    push_all(&mut out, &trimmed);
    out.push(10);
    out.push(10);
    push_all(&mut out, &block);
    out.push(10);
    proof {
        assert(out@ =~= trim_nl(normalize(current@)) + nl() + nl() + block_of(body@) + nl());
    }
    out
}

} // verus!
