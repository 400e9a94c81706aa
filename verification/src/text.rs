//! Byte-string primitives: whitespace tests, substring search, newline
//! normalization and newline trimming, together with the lemmas that
//! relate them to their quantifier characterizations.

use vstd::prelude::*;

verus! {

/// The line-feed byte.
pub open spec fn nl() -> Seq<u8> {
    seq![10u8]
}

/// ASCII whitespace, the bytes `str::trim` removes from ASCII text.
pub open spec fn is_ws(b: u8) -> bool {
    b == 32 || b == 9 || b == 10 || b == 13 || b == 11 || b == 12
}

/// A byte string is blank when every byte is whitespace.
pub open spec fn is_blank(s: Seq<u8>) -> bool
    decreases s.len(),
{
    s.len() == 0 || (is_ws(s[0]) && is_blank(s.skip(1)))
}

pub proof fn lemma_is_blank_iff(s: Seq<u8>)
    ensures
        is_blank(s) <==> (forall|i: int| 0 <= i < s.len() ==> is_ws(s[i])),
    decreases s.len(),
{
    if s.len() > 0 {
        lemma_is_blank_iff(s.skip(1));
        assert forall|i: int| 0 <= i < s.len() && is_blank(s) implies is_ws(s[i]) by {
            if i > 0 {
                assert(s.skip(1)[i - 1] == s[i]);
            }
        }
        if forall|i: int| 0 <= i < s.len() ==> is_ws(s[i]) {
            assert(forall|i: int| 0 <= i < s.skip(1).len() ==> s.skip(1)[i] == s[i + 1]);
        }
    }
}

/// Whether the needle `n` occurs in `h` starting at position `i`.
pub open spec fn matches_at(h: Seq<u8>, n: Seq<u8>, i: int) -> bool
    decreases n.len(),
{
    &&& 0 <= i
    &&& i + n.len() <= h.len()
    &&& n.len() == 0 || (h[i] == n[0] && matches_at(h, n.skip(1), i + 1))
}

pub proof fn lemma_matches_at_iff(h: Seq<u8>, n: Seq<u8>, i: int)
    ensures
        matches_at(h, n, i) <==> (0 <= i && i + n.len() <= h.len() && forall|j: int|
            0 <= j < n.len() ==> h[i + j] == n[j]),
    decreases n.len(),
{
    if n.len() > 0 {
        lemma_matches_at_iff(h, n.skip(1), i + 1);
        if matches_at(h, n, i) {
            assert forall|j: int| 0 <= j < n.len() implies h[i + j] == n[j] by {
                if j > 0 {
                    assert(n.skip(1)[j - 1] == n[j]);
                    assert(h[(i + 1) + (j - 1)] == n.skip(1)[j - 1]);
                }
            }
        }
        if 0 <= i && i + n.len() <= h.len() && forall|j: int| 0 <= j < n.len() ==> h[i + j]
            == n[j] {
            assert(h[i + 0] == n[0]);
            assert forall|j: int| 0 <= j < n.skip(1).len() implies h[(i + 1) + j] == n.skip(1)[j] by {
                assert(n.skip(1)[j] == n[j + 1]);
                assert(h[i + (j + 1)] == n[j + 1]);
            }
        }
    }
}

/// The least position at or after `from` where `n` occurs in `h`.
pub open spec fn find_from(h: Seq<u8>, n: Seq<u8>, from: int) -> Option<int>
    decreases h.len() - from + 1,
{
    if from < 0 || from + n.len() > h.len() {
        None
    } else if matches_at(h, n, from) {
        Some(from)
    } else {
        find_from(h, n, from + 1)
    }
}

/// The least position where `n` occurs in `h`.
pub open spec fn find_sub(h: Seq<u8>, n: Seq<u8>) -> Option<int> {
    find_from(h, n, 0)
}

/// Whether `n` occurs anywhere in `h`.
pub open spec fn contains_sub(h: Seq<u8>, n: Seq<u8>) -> bool {
    find_sub(h, n) is Some
}

pub proof fn lemma_find_from_spec(h: Seq<u8>, n: Seq<u8>, from: int)
    requires
        0 <= from,
    ensures
        match find_from(h, n, from) {
            Some(k) => from <= k && matches_at(h, n, k) && forall|j: int|
                from <= j < k ==> !matches_at(h, n, j),
            None => forall|j: int| from <= j ==> !matches_at(h, n, j),
        },
    decreases h.len() - from + 1,
{
    if from + n.len() > h.len() {
        assert forall|j: int| from <= j implies !matches_at(h, n, j) by {
            lemma_matches_at_iff(h, n, j);
        }
    } else if !matches_at(h, n, from) {
        lemma_find_from_spec(h, n, from + 1);
    }
}

pub proof fn lemma_find_sub_spec(h: Seq<u8>, n: Seq<u8>)
    ensures
        match find_sub(h, n) {
            Some(k) => 0 <= k && matches_at(h, n, k) && forall|j: int|
                0 <= j < k ==> !matches_at(h, n, j),
            None => forall|j: int| !matches_at(h, n, j),
        },
{
    lemma_find_from_spec(h, n, 0);
    if find_sub(h, n) is None {
        assert forall|j: int| !matches_at(h, n, j) by {
            if j < 0 {
                assert(!matches_at(h, n, j));
            }
        }
    }
}

/// The first occurrence is pinned down by a witness and minimality.
pub proof fn lemma_find_from_unique(h: Seq<u8>, n: Seq<u8>, from: int, k: int)
    requires
        0 <= from <= k,
        matches_at(h, n, k),
        forall|j: int| from <= j < k ==> !matches_at(h, n, j),
    ensures
        find_from(h, n, from) == Some(k),
{
    lemma_find_from_spec(h, n, from);
    lemma_matches_at_iff(h, n, k);
    match find_from(h, n, from) {
        Some(m) => {
            if m < k {
                assert(!matches_at(h, n, m));
            }
            if k < m {
                assert(!matches_at(h, n, k));
            }
        },
        None => {
            assert(!matches_at(h, n, k));
        },
    }
}

/// The carriage-return/line-feed pair.
pub open spec fn crlf() -> Seq<u8> {
    seq![13u8, 10u8]
}

/// No byte of `s` equals `b`.
pub open spec fn byte_free(s: Seq<u8>, b: u8) -> bool
    decreases s.len(),
{
    s.len() == 0 || (s[0] != b && byte_free(s.skip(1), b))
}

pub proof fn lemma_byte_free_iff(s: Seq<u8>, b: u8)
    ensures
        byte_free(s, b) <==> (forall|i: int| 0 <= i < s.len() ==> s[i] != b),
    decreases s.len(),
{
    if s.len() > 0 {
        lemma_byte_free_iff(s.skip(1), b);
        assert(forall|i: int| 0 <= i < s.skip(1).len() ==> s.skip(1)[i] == s[i + 1]);
        if byte_free(s, b) {
            assert forall|i: int| 0 <= i < s.len() implies s[i] != b by {
                if i > 0 {
                    assert(s.skip(1)[i - 1] != b);
                }
            }
        }
    }
}

/// `crlf` occurs nowhere in `s`.
pub open spec fn crlf_free(s: Seq<u8>) -> bool {
    forall|i: int| !(#[trigger] matches_at(s, crlf(), i))
}

pub proof fn lemma_cr_free_implies_crlf_free(s: Seq<u8>)
    requires
        byte_free(s, 13),
    ensures
        crlf_free(s),
{
    lemma_byte_free_iff(s, 13);
    assert forall|i: int| !matches_at(s, crlf(), i) by {
        lemma_matches_at_iff(s, crlf(), i);
        if matches_at(s, crlf(), i) {
            assert(s[i + 0] == crlf()[0]);
        }
    }
}

/// An occurrence pins every byte it covers.
pub proof fn lemma_matches_at_byte(h: Seq<u8>, n: Seq<u8>, i: int, p: int)
    requires
        matches_at(h, n, i),
        i <= p < i + n.len(),
    ensures
        h[p] == n[p - i],
{
    lemma_matches_at_iff(h, n, i);
}

/// An occurrence inside the left part of a concatenation.
pub proof fn lemma_matches_concat_left(x: Seq<u8>, y: Seq<u8>, n: Seq<u8>, i: int)
    ensures
        i + n.len() <= x.len() ==> (matches_at(x, n, i) <==> matches_at(x + y, n, i)),
{
    lemma_matches_at_iff(x, n, i);
    lemma_matches_at_iff(x + y, n, i);
}

/// An occurrence inside the right part of a concatenation.
pub proof fn lemma_matches_concat_right(x: Seq<u8>, y: Seq<u8>, n: Seq<u8>, k: int)
    requires
        0 <= k,
    ensures
        matches_at(y, n, k) <==> matches_at(x + y, n, x.len() + k),
{
    lemma_matches_at_iff(y, n, k);
    lemma_matches_at_iff(x + y, n, x.len() + k);
    if 0 <= k && k + n.len() <= y.len() {
        assert forall|j: int| 0 <= j < n.len() implies (x + y)[x.len() + k + j] == #[trigger] y[k
            + j] by {}
    }
}

/// Occurrences in a subrange extend to the whole sequence.
pub proof fn lemma_matches_subrange(h: Seq<u8>, a: int, b: int, n: Seq<u8>, i: int)
    requires
        0 <= a <= b <= h.len(),
        matches_at(h.subrange(a, b), n, i),
    ensures
        matches_at(h, n, a + i),
{
    lemma_matches_at_iff(h.subrange(a, b), n, i);
    lemma_matches_at_iff(h, n, a + i);
}

/// An occurrence of a needle that contains no `b` cannot cover a
/// position holding `b`; in `x + y` with such a needle, every
/// occurrence lies inside `x` or inside `y` whenever the junction
/// byte, the last of `x`, is such a `b`.
pub proof fn lemma_matches_concat_cases(x: Seq<u8>, y: Seq<u8>, n: Seq<u8>, i: int)
    requires
        matches_at(x + y, n, i),
        n.len() > 0,
        x.len() > 0,
        byte_free(n, x[x.len() - 1]),
    ensures
        (i + n.len() <= x.len() && matches_at(x, n, i)) || (i >= x.len() && matches_at(
            y,
            n,
            i - x.len(),
        )),
{
    lemma_byte_free_iff(n, x[x.len() - 1]);
    lemma_matches_at_iff(x + y, n, i);
    lemma_matches_at_iff(x, n, i);
    lemma_matches_at_iff(y, n, i - x.len());
    if i < x.len() && i + n.len() > x.len() {
        let p = x.len() - 1;
        assert((x + y)[p] == n[p - i]);
    }
    if i + n.len() <= x.len() {
        assert forall|j: int| 0 <= j < n.len() implies x[i + j] == n[j] by {
            assert((x + y)[i + j] == n[j]);
        }
    }
    if i >= x.len() {
        assert forall|j: int| 0 <= j < n.len() implies y[i - x.len() + j] == n[j] by {
            assert((x + y)[i + j] == n[j]);
        }
    }
}

/// Line-ending normalization: every `crlf` pair becomes a single
/// line feed, scanning left to right.
pub open spec fn normalize(s: Seq<u8>) -> Seq<u8>
    decreases s.len(),
{
    if s.len() == 0 {
        seq![]
    } else if s.len() >= 2 && s[0] == 13 && s[1] == 10 {
        nl() + normalize(s.skip(2))
    } else {
        seq![s[0]] + normalize(s.skip(1))
    }
}

/// A sequence without `crlf` pairs normalizes to itself.
pub proof fn lemma_normalize_id(s: Seq<u8>)
    requires
        crlf_free(s),
    ensures
        normalize(s) == s,
    decreases s.len(),
{
    if s.len() > 0 {
        if s.len() >= 2 && s[0] == 13 && s[1] == 10 {
            lemma_matches_at_iff(s, crlf(), 0);
            assert(matches_at(s, crlf(), 0));
        }
        assert forall|i: int| !matches_at(s.skip(1), crlf(), i) by {
            lemma_matches_at_iff(s.skip(1), crlf(), i);
            lemma_matches_at_iff(s, crlf(), i + 1);
            if matches_at(s.skip(1), crlf(), i) {
                assert(forall|j: int|
                    0 <= j < s.skip(1).len() ==> s.skip(1)[j] == s[j + 1]);
                assert(matches_at(s, crlf(), i + 1));
            }
        }
        lemma_normalize_id(s.skip(1));
        assert(seq![s[0]] + s.skip(1) =~= s);
    }
}

/// Two `crlf`-free pieces concatenate to a `crlf`-free whole when no
/// pair straddles the junction.
pub proof fn lemma_crlf_free_concat(x: Seq<u8>, y: Seq<u8>)
    requires
        crlf_free(x),
        crlf_free(y),
        !(x.len() > 0 && y.len() > 0 && x[x.len() - 1] == 13 && y[0] == 10),
    ensures
        crlf_free(x + y),
{
    assert forall|i: int| !matches_at(x + y, crlf(), i) by {
        lemma_matches_at_iff(x + y, crlf(), i);
        if matches_at(x + y, crlf(), i) {
            if i + 2 <= x.len() {
                lemma_matches_concat_left(x, y, crlf(), i);
            } else if i >= x.len() {
                lemma_matches_concat_right(x, y, crlf(), i - x.len());
            } else {
                assert((x + y)[x.len() - 1] == 13);
                assert((x + y)[x.len() as int] == 10);
            }
        }
    }
}

/// Leading line feeds removed.
pub open spec fn trim_nl_front(s: Seq<u8>) -> Seq<u8>
    decreases s.len(),
{
    if s.len() > 0 && s[0] == 10 {
        trim_nl_front(s.skip(1))
    } else {
        s
    }
}

/// Trailing line feeds removed.
pub open spec fn trim_nl_back(s: Seq<u8>) -> Seq<u8>
    decreases s.len(),
{
    if s.len() > 0 && s[s.len() - 1] == 10 {
        trim_nl_back(s.take(s.len() - 1))
    } else {
        s
    }
}

/// Line feeds removed from both ends, as `trim_matches('\n')` does.
pub open spec fn trim_nl(s: Seq<u8>) -> Seq<u8> {
    trim_nl_back(trim_nl_front(s))
}

pub proof fn lemma_trim_nl_front_range(s: Seq<u8>, a: int)
    requires
        0 <= a <= s.len(),
        forall|k: int| 0 <= k < a ==> s[k] == 10,
        a == s.len() || s[a] != 10,
    ensures
        trim_nl_front(s) == s.skip(a),
    decreases a,
{
    if a == 0 {
        assert(s.skip(0) =~= s);
    } else {
        assert(s[0] == 10);
        assert(forall|i: int| 0 <= i < s.skip(1).len() ==> s.skip(1)[i] == s[i + 1]);
        lemma_trim_nl_front_range(s.skip(1), a - 1);
        assert(s.skip(1).skip(a - 1) =~= s.skip(a));
    }
}

pub proof fn lemma_trim_nl_back_range(s: Seq<u8>, m: int)
    requires
        0 <= m <= s.len(),
        forall|k: int| m <= k < s.len() ==> s[k] == 10,
        m == 0 || s[m - 1] != 10,
    ensures
        trim_nl_back(s) == s.take(m),
    decreases s.len(),
{
    if m == s.len() {
        assert(s.take(m) =~= s);
    } else {
        assert(s[s.len() - 1] == 10);
        lemma_trim_nl_back_range(s.take(s.len() - 1), m);
        assert(s.take(s.len() - 1).take(m) =~= s.take(m));
    }
}

/// The trimmed form neither starts nor ends with a line feed.
pub proof fn lemma_trim_nl_shape(s: Seq<u8>)
    ensures
        trim_nl(s).len() > 0 ==> trim_nl(s)[0] != 10,
        trim_nl(s).len() > 0 ==> trim_nl(s)[trim_nl(s).len() - 1] != 10,
    decreases s.len(),
{
    lemma_trim_nl_front_shape(s);
    lemma_trim_nl_back_shape(trim_nl_front(s));
}

pub proof fn lemma_trim_nl_front_shape(s: Seq<u8>)
    ensures
        trim_nl_front(s).len() > 0 ==> trim_nl_front(s)[0] != 10,
        forall|i: int|
            0 <= i < trim_nl_front(s).len() ==> trim_nl_front(s)[i] == s[s.len()
                - trim_nl_front(s).len() + i],
        trim_nl_front(s).len() <= s.len(),
    decreases s.len(),
{
    if s.len() > 0 && s[0] == 10 {
        lemma_trim_nl_front_shape(s.skip(1));
        assert(forall|i: int| 0 <= i < s.skip(1).len() ==> s.skip(1)[i] == s[i + 1]);
    }
}

pub proof fn lemma_trim_nl_back_shape(s: Seq<u8>)
    ensures
        trim_nl_back(s).len() > 0 ==> trim_nl_back(s)[trim_nl_back(s).len() - 1] != 10,
        trim_nl_back(s).len() > 0 ==> trim_nl_back(s)[0] == s[0],
        forall|i: int| 0 <= i < trim_nl_back(s).len() ==> trim_nl_back(s)[i] == s[i],
        trim_nl_back(s).len() <= s.len(),
    decreases s.len(),
{
    if s.len() > 0 && s[s.len() - 1] == 10 {
        lemma_trim_nl_back_shape(s.take(s.len() - 1));
        assert(forall|i: int|
            0 <= i < s.take(s.len() - 1).len() ==> s.take(s.len() - 1)[i] == s[i]);
    }
}

/// Appends all of `s` to `out`.
pub fn push_all(out: &mut Vec<u8>, s: &Vec<u8>)
    ensures
        final(out)@ == old(out)@ + s@,
{
    let mut i: usize = 0;
    while i < s.len()
        invariant
            i <= s.len(),
            out@ == old(out)@ + s@.take(i as int),
        decreases s.len() - i,
    {
        out.push(s[i]);
        proof {
            assert(s@.take(i + 1) == s@.take(i as int).push(s@[i as int]));
        }
        i += 1;
    }
    proof {
        assert(s@.take(s@.len() as int) == s@);
    }
}

/// Whether every byte of `s` is whitespace.
pub fn is_blank_bytes(s: &Vec<u8>) -> (r: bool)
    ensures
        r == is_blank(s@),
{
    let mut i: usize = 0;
    while i < s.len()
        invariant
            i <= s.len(),
            forall|j: int| 0 <= j < i ==> is_ws(s@[j]),
        decreases s.len() - i,
    {
        let b = s[i];
        if !(b == 32 || b == 9 || b == 10 || b == 13 || b == 11 || b == 12) {
            proof {
                lemma_is_blank_iff(s@);
                assert(!is_ws(s@[i as int]));
            }
            return false;
        }
        i += 1;
    }
    proof {
        lemma_is_blank_iff(s@);
    }
    true
}

/// Copies `s[a..b]` into a fresh vector.
pub fn subvec(s: &Vec<u8>, a: usize, b: usize) -> (r: Vec<u8>)
    requires
        a <= b <= s@.len(),
    ensures
        r@ == s@.subrange(a as int, b as int),
{
    let mut r: Vec<u8> = Vec::new();
    let mut i: usize = a;
    while i < b
        invariant
            a <= i <= b <= s@.len(),
            r@ == s@.subrange(a as int, i as int),
        decreases b - i,
    {
        r.push(s[i]);
        proof {
            assert(s@.subrange(a as int, i + 1) =~= s@.subrange(a as int, i as int).push(
                s@[i as int],
            ));
        }
        i += 1;
    }
    r
}

/// Whether `n` occurs in `h` at position `i`.
pub fn matches_at_bytes(h: &Vec<u8>, n: &Vec<u8>, i: usize) -> (r: bool)
    requires
        i + n@.len() <= h@.len(),
    ensures
        r == matches_at(h@, n@, i as int),
{
    let hl = h.len();
    let mut j: usize = 0;
    while j < n.len()
        invariant
            j <= n@.len(),
            i + n@.len() <= h@.len(),
            hl == h@.len(),
            forall|k: int| 0 <= k < j ==> h@[i + k] == n@[k],
        decreases n.len() - j,
    {
        if h[i + j] != n[j] {
            proof {
                lemma_matches_at_iff(h@, n@, i as int);
            }
            return false;
        }
        j += 1;
    }
    proof {
        lemma_matches_at_iff(h@, n@, i as int);
    }
    true
}

/// The least position at or after `from` where `n` occurs in `h`.
pub fn find_bytes_from(h: &Vec<u8>, n: &Vec<u8>, from: usize) -> (r: Option<usize>)
    requires
        n@.len() > 0,
    ensures
        match r {
            Some(k) => from <= k && k + n@.len() <= h@.len() && Some(k as int) == find_from(
                h@,
                n@,
                from as int,
            ),
            None => find_from(h@, n@, from as int) is None,
        },
{
    if from > h.len() || n.len() > h.len() - from {
        proof {
            lemma_find_from_spec(h@, n@, from as int);
            if find_from(h@, n@, from as int) is Some {
                let k = find_from(h@, n@, from as int)->Some_0;
                lemma_matches_at_iff(h@, n@, k);
            }
        }
        return None;
    }
    let mut i: usize = from;
    let last: usize = h.len() - n.len();
    while i <= last
        invariant
            from <= i,
            i <= last + 1,
            last < usize::MAX,
            last == h@.len() - n@.len(),
            n@.len() <= h@.len(),
            forall|j: int| from <= j < i ==> !matches_at(h@, n@, j),
        decreases last + 1 - i,
    {
        if matches_at_bytes(h, n, i) {
            proof {
                lemma_find_from_unique(h@, n@, from as int, i as int);
            }
            return Some(i);
        }
        i += 1;
    }
    proof {
        lemma_find_from_spec(h@, n@, from as int);
        if find_from(h@, n@, from as int) is Some {
            let k = find_from(h@, n@, from as int)->Some_0;
            lemma_matches_at_iff(h@, n@, k);
        }
    }
    None
}

/// Replaces every `crlf` pair by a single line feed.
pub fn normalize_bytes(s: &Vec<u8>) -> (r: Vec<u8>)
    ensures
        r@ == normalize(s@),
{
    let mut r: Vec<u8> = Vec::new();
    let mut i: usize = 0;
    proof {
        assert(s@.skip(0) =~= s@);
        assert(Seq::<u8>::empty() + normalize(s@) =~= normalize(s@));
    }
    while i < s.len()
        invariant
            i <= s@.len(),
            normalize(s@) == r@ + normalize(s@.skip(i as int)),
        decreases s.len() - i,
    {
        let ghost pre = r@;
        let ghost rest = s@.skip(i as int);
        if s[i] == 13 && i + 1 < s.len() && s[i + 1] == 10 {
            r.push(10);
            proof {
                assert(rest[0] == 13 && rest[1] == 10);
                assert(rest.skip(2) =~= s@.skip(i + 2));
                assert(normalize(rest) == nl() + normalize(s@.skip(i + 2)));
                assert(pre.push(10u8) =~= pre + nl());
                assert((pre + nl()) + normalize(s@.skip(i + 2)) =~= pre + (nl() + normalize(
                    s@.skip(i + 2),
                )));
            }
            i += 2;
        } else {
            let b = s[i];
            r.push(b);
            proof {
                assert(rest[0] == b);
                assert(!(rest.len() >= 2 && rest[0] == 13 && rest[1] == 10));
                assert(rest.skip(1) =~= s@.skip(i + 1));
                assert(normalize(rest) == seq![b] + normalize(s@.skip(i + 1)));
                assert(pre.push(b) =~= pre + seq![b]);
                assert((pre + seq![b]) + normalize(s@.skip(i + 1)) =~= pre + (seq![b]
                    + normalize(s@.skip(i + 1))));
            }
            i += 1;
        }
    }
    proof {
        assert(s@.skip(s@.len() as int) =~= Seq::<u8>::empty());
        assert(r@ + normalize(Seq::<u8>::empty()) =~= r@);
    }
    r
}

/// Removes line feeds from both ends.
pub fn trim_nl_bytes(s: &Vec<u8>) -> (r: Vec<u8>)
    ensures
        r@ == trim_nl(s@),
{
    let mut a: usize = 0;
    while a < s.len() && s[a] == 10
        invariant
            a <= s@.len(),
            forall|k: int| 0 <= k < a ==> s@[k] == 10,
        decreases s.len() - a,
    {
        a += 1;
    }
    let mut b: usize = s.len();
    while b > a && s[b - 1] == 10
        invariant
            a <= b <= s@.len(),
            forall|k: int| b <= k < s@.len() ==> s@[k] == 10,
        decreases b,
    {
        b -= 1;
    }
    let r = subvec(s, a, b);
    proof {
        lemma_trim_nl_front_range(s@, a as int);
        let t = s@.skip(a as int);
        assert(forall|i: int| 0 <= i < t.len() ==> t[i] == s@[a + i]);
        lemma_trim_nl_back_range(t, b - a);
        assert(t.take(b - a) =~= s@.subrange(a as int, b as int));
    }
    r
}

/// Whether two byte strings hold the same bytes.
pub fn bytes_eq(x: &Vec<u8>, y: &Vec<u8>) -> (r: bool)
    ensures
        r == (x@ == y@),
{
    if x.len() != y.len() {
        return false;
    }
    let mut i: usize = 0;
    while i < x.len()
        invariant
            i <= x@.len(),
            x@.len() == y@.len(),
            forall|j: int| 0 <= j < i ==> x@[j] == y@[j],
        decreases x.len() - i,
    {
        if x[i] != y[i] {
            return false;
        }
        i += 1;
    }
    proof {
        assert(x@ =~= y@);
    }
    true
}

} // verus!
