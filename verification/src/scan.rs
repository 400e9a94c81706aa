//! Bounded-depth discovery of configuration files that already carry a
//! managed region.
//!
//! The scanner works on a snapshot of the directory tree: each node
//! names one directory, says whether `<dir>/.codex/config.toml` exists
//! and holds the begin marker, and lists its subdirectories.  A node
//! with a managed configuration ends its branch: nothing below it is
//! ever reported, and nodes deeper than the level budget are never
//! reached at all.

use vstd::prelude::*;

use crate::text::{byte_free, push_all, subvec};

verus! {

/// One directory of the snapshot.
pub struct DirNode {
    /// The directory's name, one path component.
    pub name: Vec<u8>,
    /// Whether `<dir>/.codex/config.toml` exists and holds the begin marker.
    pub has_managed_config: bool,
    /// The subdirectories.
    pub children: Vec<DirNode>,
}

/// The path of a configuration file relative to the directory that
/// owns it: `/.codex/config.toml`.
pub open spec fn config_rel_path() -> Seq<u8> {
    seq![
        47u8, 46u8, 99u8, 111u8, 100u8, 101u8, 120u8, 47u8, 99u8, 111u8, 110u8, 102u8, 105u8,
        103u8, 46u8, 116u8, 111u8, 109u8, 108u8,
    ]
}

/// `/.codex/config.toml` as a byte vector.
pub fn config_rel_bytes() -> (r: Vec<u8>)
    ensures
        r@ == config_rel_path(),
{
    let mut v: Vec<u8> = Vec::new();
    v.push(47);
    v.push(46);
    v.push(99);
    v.push(111);
    v.push(100);
    v.push(101);
    v.push(120);
    v.push(47);
    v.push(99);
    v.push(111);
    v.push(110);
    v.push(102);
    v.push(105);
    v.push(103);
    v.push(46);
    v.push(116);
    v.push(111);
    v.push(109);
    v.push(108);
    proof {
        assert(v@ =~= config_rel_path());
    }
    v
}

/// The configuration paths the scanner reports under one directory,
/// with `levels` checks left.  A node within the budget is checked;
/// one carrying a managed configuration is reported and pruned, any
/// other is descended into with one level less.
pub open spec fn configs_under(node: DirNode, dir: Seq<u8>, levels: nat) -> Seq<Seq<u8>>
    decreases levels, 0int,
{
    if levels == 0 {
        seq![]
    } else {
        let p = dir + seq![47u8] + node.name@;
        if node.has_managed_config {
            seq![p + config_rel_path()]
        } else {
            configs_under_all(node.children@, p, (levels - 1) as nat)
        }
    }
}

/// The paths reported under a list of sibling directories.
pub open spec fn configs_under_all(nodes: Seq<DirNode>, dir: Seq<u8>, levels: nat) -> Seq<Seq<u8>>
    decreases levels, nodes.len() + 1,
{
    if nodes.len() == 0 {
        seq![]
    } else {
        configs_under(nodes[0], dir, levels) + configs_under_all(nodes.skip(1), dir, levels)
    }
}

fn collect_node(node: &DirNode, dir: &Vec<u8>, levels: usize, out: &mut Vec<Vec<u8>>)
    ensures
        final(out).deep_view() == old(out).deep_view() + configs_under(*node, dir@, levels as nat),
    decreases levels, 0int,
{
    if levels == 0 {
        proof {
            assert(out.deep_view() + configs_under(*node, dir@, 0) =~= out.deep_view());
        }
        return ;
    }
    let mut p = subvec(dir, 0, dir.len());
    proof {
        assert(p@ =~= dir@);
    }
    p.push(47);
    push_all(&mut p, &node.name);
    proof {
        assert(p@ =~= dir@ + seq![47u8] + node.name@);
    }
    if node.has_managed_config {
        let mut cfg = subvec(&p, 0, p.len());
        proof {
            assert(cfg@ =~= p@);
        }
        let rel = config_rel_bytes();
        push_all(&mut cfg, &rel);
        let ghost pre = out.deep_view();
        out.push(cfg);
        proof {
            assert(out.deep_view() =~~= pre + configs_under(*node, dir@, levels as nat));
        }
    } else {
        collect_children(&node.children, &p, levels - 1, out);
    }
}

fn collect_children(nodes: &Vec<DirNode>, dir: &Vec<u8>, levels: usize, out: &mut Vec<Vec<u8>>)
    ensures
        final(out).deep_view() == old(out).deep_view() + configs_under_all(
            nodes@,
            dir@,
            levels as nat,
        ),
    decreases levels, nodes.len() + 1,
{
    let ghost all = nodes@;
    let mut i: usize = 0;
    proof {
        assert(all.skip(0) =~= all);
        assert(old(out).deep_view() + (Seq::<Seq<u8>>::empty() + configs_under_all(
            all,
            dir@,
            levels as nat,
        )) =~= old(out).deep_view() + configs_under_all(all, dir@, levels as nat));
    }
    while i < nodes.len()
        invariant
            i <= nodes@.len(),
            all == nodes@,
            old(out).deep_view() + configs_under_all(all, dir@, levels as nat)
                == out.deep_view() + configs_under_all(all.skip(i as int), dir@, levels as nat),
        decreases nodes.len() - i,
    {
        let ghost pre = out.deep_view();
        let ghost rest = all.skip(i as int);
        collect_node(&nodes[i], dir, levels, out);
        proof {
            assert(rest[0] == all[i as int]);
            assert(rest.skip(1) =~= all.skip(i + 1));
            assert(configs_under_all(rest, dir@, levels as nat) == configs_under(
                all[i as int],
                dir@,
                levels as nat,
            ) + configs_under_all(all.skip(i + 1), dir@, levels as nat));
            assert((pre + configs_under(all[i as int], dir@, levels as nat)) + configs_under_all(
                all.skip(i + 1),
                dir@,
                levels as nat,
            ) =~= pre + (configs_under(all[i as int], dir@, levels as nat) + configs_under_all(
                all.skip(i + 1),
                dir@,
                levels as nat,
            )));
        }
        i += 1;
    }
    proof {
        assert(all.skip(all.len() as int).len() == 0);
        assert(configs_under_all(all.skip(all.len() as int), dir@, levels as nat) =~= Seq::<
            Seq<u8>,
        >::empty());
        assert(out.deep_view() + Seq::<Seq<u8>>::empty() =~= out.deep_view());
    }
}

/// Appends to `out` every configuration path the scanner reports
/// under the sibling directories `nodes` of directory `dir`, with
/// `levels` levels in the budget.
pub fn collect_configs(nodes: &Vec<DirNode>, dir: &Vec<u8>, levels: usize, out: &mut Vec<Vec<u8>>)
    ensures
        final(out).deep_view() == old(out).deep_view() + configs_under_all(
            nodes@,
            dir@,
            levels as nat,
        ),
{
    collect_children(nodes, dir, levels, out);
}

/// The number of `/` bytes in `s`.
pub open spec fn slash_count(s: Seq<u8>) -> nat
    decreases s.len(),
{
    if s.len() == 0 {
        0
    } else {
        (if s[0] == 47 {
            1nat
        } else {
            0nat
        }) + slash_count(s.skip(1))
    }
}

proof fn lemma_slash_count_concat(x: Seq<u8>, y: Seq<u8>)
    ensures
        slash_count(x + y) == slash_count(x) + slash_count(y),
    decreases x.len(),
{
    if x.len() == 0 {
        assert(x + y =~= y);
    } else {
        assert((x + y)[0] == x[0]);
        assert((x + y).skip(1) =~= x.skip(1) + y);
        lemma_slash_count_concat(x.skip(1), y);
    }
}

/// Every directory name down to `d` levels is free of `/`.
pub open spec fn names_slash_free_to(nodes: Seq<DirNode>, d: nat) -> bool
    decreases d, nodes.len() + 1,
{
    if d == 0 || nodes.len() == 0 {
        true
    } else {
        &&& byte_free(nodes[0].name@, 47)
        &&& names_slash_free_to(nodes[0].children@, (d - 1) as nat)
        &&& names_slash_free_to(nodes.skip(1), d)
    }
}

proof fn lemma_names_slash_free_mono(nodes: Seq<DirNode>, d1: nat, d2: nat)
    requires
        d1 <= d2,
        names_slash_free_to(nodes, d2),
    ensures
        names_slash_free_to(nodes, d1),
    decreases d1, nodes.len() + 1,
{
    if d1 > 0 && nodes.len() > 0 {
        lemma_names_slash_free_mono(nodes[0].children@, (d1 - 1) as nat, (d2 - 1) as nat);
        lemma_names_slash_free_mono(nodes.skip(1), d1, d2);
    }
}

proof fn lemma_contains_concat(x: Seq<Seq<u8>>, y: Seq<Seq<u8>>, q: Seq<u8>)
    requires
        (x + y).contains(q),
    ensures
        x.contains(q) || y.contains(q),
{
    let i = choose|i: int| 0 <= i < (x + y).len() && (x + y)[i] == q;
    if i < x.len() {
        assert(x[i] == q);
    } else {
        assert(y[i - x.len()] == q);
    }
}

proof fn lemma_scan_member_slashes(nodes: Seq<DirNode>, dir: Seq<u8>, levels: nat, q: Seq<u8>)
    requires
        names_slash_free_to(nodes, levels),
        configs_under_all(nodes, dir, levels).contains(q),
    ensures
        slash_count(q) <= slash_count(dir) + levels + 2,
    decreases levels, nodes.len() + 1,
{
    assert(nodes.len() > 0);
    lemma_contains_concat(
        configs_under(nodes[0], dir, levels),
        configs_under_all(nodes.skip(1), dir, levels),
        q,
    );
    if configs_under(nodes[0], dir, levels).contains(q) {
        assert(levels > 0);
        let p = dir + seq![47u8] + nodes[0].name@;
        assert(slash_count(p) == slash_count(dir) + 1) by {
            lemma_slash_count_concat(dir, seq![47u8]);
            lemma_slash_count_concat(dir + seq![47u8], nodes[0].name@);
            assert(slash_count(seq![47u8]) == 1) by {
                reveal_with_fuel(slash_count, 3);
                assert(seq![47u8].skip(1) =~= Seq::<u8>::empty());
            }
            assert(slash_count(nodes[0].name@) == 0) by {
                lemma_byte_free_slash_count(nodes[0].name@);
            }
        }
        if nodes[0].has_managed_config {
            assert(q == p + config_rel_path()) by {
                let one = configs_under(nodes[0], dir, levels);
                let i = choose|i: int| 0 <= i < one.len() && one[i] == q;
            }
            lemma_slash_count_concat(p, config_rel_path());
            lemma_config_rel_slashes();
        } else {
            lemma_scan_member_slashes(nodes[0].children@, p, (levels - 1) as nat, q);
        }
    } else {
        lemma_scan_member_slashes(nodes.skip(1), dir, levels, q);
    }
}

proof fn lemma_byte_free_slash_count(s: Seq<u8>)
    requires
        byte_free(s, 47),
    ensures
        slash_count(s) == 0,
    decreases s.len(),
{
    if s.len() > 0 {
        lemma_byte_free_slash_count(s.skip(1));
    }
}

proof fn lemma_config_rel_slashes()
    ensures
        slash_count(config_rel_path()) == 2,
{
    reveal_with_fuel(slash_count, 21);
}

/// The directory named by a chain of child indices, root children
/// first.
pub open spec fn tree_path(nodes: Seq<DirNode>, dir: Seq<u8>, pos: Seq<int>) -> Seq<u8>
    decreases pos.len(),
{
    if pos.len() == 0 || !(0 <= pos[0] < nodes.len()) {
        dir
    } else {
        tree_path(
            nodes[pos[0]].children@,
            dir + seq![47u8] + nodes[pos[0]].name@,
            pos.skip(1),
        )
    }
}

/// Whether a chain of child indices names a directory of the snapshot.
pub open spec fn valid_pos(nodes: Seq<DirNode>, pos: Seq<int>) -> bool
    decreases pos.len(),
{
    pos.len() > 0 && 0 <= pos[0] < nodes.len() && (pos.len() == 1 || valid_pos(
        nodes[pos[0]].children@,
        pos.skip(1),
    ))
}

proof fn lemma_tree_path_slashes(nodes: Seq<DirNode>, dir: Seq<u8>, pos: Seq<int>)
    requires
        valid_pos(nodes, pos),
        names_slash_free_to(nodes, pos.len() as nat),
    ensures
        slash_count(tree_path(nodes, dir, pos)) == slash_count(dir) + pos.len(),
    decreases pos.len(),
{
    let k = pos[0];
    assert(byte_free(nodes[k].name@, 47) && names_slash_free_to(
        nodes[k].children@,
        (pos.len() - 1) as nat,
    )) by {
        lemma_names_slash_free_at(nodes, pos.len() as nat, k);
    }
    let p = dir + seq![47u8] + nodes[k].name@;
    assert(slash_count(p) == slash_count(dir) + 1) by {
        lemma_slash_count_concat(dir, seq![47u8]);
        lemma_slash_count_concat(dir + seq![47u8], nodes[k].name@);
        assert(slash_count(seq![47u8]) == 1) by {
            reveal_with_fuel(slash_count, 3);
            assert(seq![47u8].skip(1) =~= Seq::<u8>::empty());
        }
        lemma_byte_free_slash_count(nodes[k].name@);
    }
    if pos.len() == 1 {
        assert(tree_path(nodes, dir, pos) == p) by {
            reveal_with_fuel(tree_path, 3);
            assert(pos.skip(1).len() == 0);
        }
    } else {
        lemma_tree_path_slashes(nodes[k].children@, p, pos.skip(1));
    }
}

proof fn lemma_names_slash_free_at(nodes: Seq<DirNode>, d: nat, k: int)
    requires
        d > 0,
        0 <= k < nodes.len(),
        names_slash_free_to(nodes, d),
    ensures
        byte_free(nodes[k].name@, 47),
        names_slash_free_to(nodes[k].children@, (d - 1) as nat),
    decreases nodes.len(),
{
    if k > 0 {
        assert(nodes.skip(1)[k - 1] == nodes[k]);
        lemma_names_slash_free_at(nodes.skip(1), d, k - 1);
    }
}

/// Pruning: a configuration file that lies deeper under a scan root
/// than the level budget allows is never reported, whatever it
/// contains.  The directory at index chain `pos` sits `pos.len()`
/// levels below the root; when that exceeds `levels`, its
/// configuration path is absent from the scan's result.
pub proof fn lemma_deep_config_never_reported(
    nodes: Seq<DirNode>,
    dir: Seq<u8>,
    levels: nat,
    pos: Seq<int>,
)
    requires
        valid_pos(nodes, pos),
        pos.len() > levels,
        names_slash_free_to(nodes, pos.len() as nat),
    ensures
        !configs_under_all(nodes, dir, levels).contains(
            tree_path(nodes, dir, pos) + config_rel_path(),
        ),
{
    let q = tree_path(nodes, dir, pos) + config_rel_path();
    lemma_tree_path_slashes(nodes, dir, pos);
    lemma_slash_count_concat(tree_path(nodes, dir, pos), config_rel_path());
    lemma_config_rel_slashes();
    if configs_under_all(nodes, dir, levels).contains(q) {
        lemma_names_slash_free_mono(nodes, levels, pos.len() as nat);
        lemma_scan_member_slashes(nodes, dir, levels, q);
    }
}

} // verus!
