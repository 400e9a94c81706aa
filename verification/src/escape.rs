//! Escaping for text embedded in the destination format: backslashes
//! and double quotes in single-line strings, backslashes and
//! triple-quote delimiters in multi-line blocks.

use vstd::prelude::*;

verus! {

/// Single-line escaping: `\` becomes `\\` and `"` becomes `\"`.
pub open spec fn toml_escaped(s: Seq<u8>) -> Seq<u8>
    decreases s.len(),
{
    if s.len() == 0 {
        seq![]
    } else if s[0] == 92 {
        seq![92u8, 92u8] + toml_escaped(s.skip(1))
    } else if s[0] == 34 {
        seq![92u8, 34u8] + toml_escaped(s.skip(1))
    } else {
        seq![s[0]] + toml_escaped(s.skip(1))
    }
}

/// Multi-line escaping: `\` becomes `\\` and a `"""` run becomes
/// `\"\"\"`, scanning left to right.
pub open spec fn multiline_escaped(s: Seq<u8>) -> Seq<u8>
    decreases s.len(),
{
    if s.len() == 0 {
        seq![]
    } else if s[0] == 92 {
        seq![92u8, 92u8] + multiline_escaped(s.skip(1))
    } else if s.len() >= 3 && s[0] == 34 && s[1] == 34 && s[2] == 34 {
        seq![92u8, 34u8, 92u8, 34u8, 92u8, 34u8] + multiline_escaped(s.skip(3))
    } else {
        seq![s[0]] + multiline_escaped(s.skip(1))
    }
}

/// Escapes a value for a single-line quoted string.
pub fn toml_escape(value: &Vec<u8>) -> (r: Vec<u8>)
    ensures
        r@ == toml_escaped(value@),
{
    let mut r: Vec<u8> = Vec::new();
    let mut i: usize = 0;
    proof {
        assert(value@.skip(0) =~= value@);
        assert(Seq::<u8>::empty() + toml_escaped(value@) =~= toml_escaped(value@));
    }
    while i < value.len()
        invariant
            i <= value@.len(),
            toml_escaped(value@) == r@ + toml_escaped(value@.skip(i as int)),
        decreases value.len() - i,
    {
        let ghost pre = r@;
        let ghost rest = value@.skip(i as int);
        let b = value[i];
        if b == 92 {
            r.push(92);
            r.push(92);
            proof {
                assert(pre.push(92u8).push(92u8) =~= pre + seq![92u8, 92u8]);
            }
        } else if b == 34 {
            r.push(92);
            r.push(34);
            proof {
                assert(pre.push(92u8).push(34u8) =~= pre + seq![92u8, 34u8]);
            }
        } else {
            r.push(b);
            proof {
                assert(pre.push(b) =~= pre + seq![b]);
            }
        }
        proof {
            assert(rest[0] == b);
            assert(rest.skip(1) =~= value@.skip(i + 1));
            assert forall|x: Seq<u8>, y: Seq<u8>, z: Seq<u8>| ((x + y) + z) =~= (x + (y + z)) by {}
        }
        i += 1;
    }
    proof {
        assert(value@.skip(value@.len() as int) =~= Seq::<u8>::empty());
        assert(r@ + toml_escaped(Seq::<u8>::empty()) =~= r@);
    }
    r
}

/// Escapes a value for a multi-line quoted block.
pub fn escape_multiline_toml(value: &Vec<u8>) -> (r: Vec<u8>)
    ensures
        r@ == multiline_escaped(value@),
{
    let mut r: Vec<u8> = Vec::new();
    let mut i: usize = 0;
    proof {
        assert(value@.skip(0) =~= value@);
        assert(Seq::<u8>::empty() + multiline_escaped(value@) =~= multiline_escaped(value@));
    }
    while i < value.len()
        invariant
            i <= value@.len(),
            multiline_escaped(value@) == r@ + multiline_escaped(value@.skip(i as int)),
        decreases value.len() - i,
    {
        let ghost pre = r@;
        let ghost rest = value@.skip(i as int);
        let b = value[i];
        if b == 92 {
            r.push(92);
            r.push(92);
            proof {
                assert(pre.push(92u8).push(92u8) =~= pre + seq![92u8, 92u8]);
                assert(rest.skip(1) =~= value@.skip(i + 1));
            }
            i += 1;
        } else if b == 34 && value.len() - i > 2 && value[i + 1] == 34 && value[i + 2] == 34 {
            r.push(92);
            r.push(34);
            r.push(92);
            r.push(34);
            r.push(92);
            r.push(34);
            proof {
                assert(rest[0] == 34 && rest[1] == 34 && rest[2] == 34);
                assert(pre.push(92u8).push(34u8).push(92u8).push(34u8).push(92u8).push(34u8)
                    =~= pre + seq![92u8, 34u8, 92u8, 34u8, 92u8, 34u8]);
                assert(rest.skip(3) =~= value@.skip(i + 3));
            }
            i += 3;
        } else {
            r.push(b);
            proof {
                assert(rest[0] == b);
                if rest.len() >= 3 && rest[0] == 34 && rest[1] == 34 && rest[2] == 34 {
                    assert(value@[i + 1] == 34 && value@[i + 2] == 34);
                    assert(false);
                }
                assert(pre.push(b) =~= pre + seq![b]);
                assert(rest.skip(1) =~= value@.skip(i + 1));
            }
            i += 1;
        }
        proof {
            assert forall|x: Seq<u8>, y: Seq<u8>, z: Seq<u8>| ((x + y) + z) =~= (x + (y + z)) by {}
        }
    }
    proof {
        assert(value@.skip(value@.len() as int) =~= Seq::<u8>::empty());
        assert(r@ + multiline_escaped(Seq::<u8>::empty()) =~= r@);
    }
    r
}

} // verus!
