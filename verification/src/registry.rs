//! The registry writer: scope resolution, grouping, rendering, and the
//! per-destination write plan.
//!
//! Everything here is pure: the caller reads and writes files, the
//! writer decides what each file must contain.

use vstd::prelude::*;

use crate::escape::{escape_multiline_toml, multiline_escaped, toml_escape, toml_escaped};
use crate::merge::upsert_spec;
use crate::merge::upsert_block;
use crate::scan::{collect_configs, config_rel_bytes, config_rel_path, configs_under_all, DirNode};
use crate::text::{bytes_eq, contains_sub, find_bytes_from, find_sub, nl, push_all, subvec};

verus! {

/// Where a definition applies: to the user as a whole or to one
/// project workspace.
#[derive(Clone, Copy, PartialEq, Eq, Structural, Debug)]
pub enum SubagentScope {
    Global,
    Project,
}

/// One subagent definition, supplied externally and immutable for the
/// duration of a run.
pub struct CodexSubagentConfigEntry {
    /// Global entries go to the home configuration; project entries to
    /// their workspace's.
    pub scope: SubagentScope,
    /// The workspace a project entry belongs to; a project entry
    /// without one is skipped silently.
    pub workspace: Option<Vec<u8>>,
    /// The key, used as detail-file name and section label.
    pub subagent_key: Vec<u8>,
    /// Free text; escaped before embedding.
    pub description: Vec<u8>,
    /// Free text; escaped before embedding.
    pub prompt: Vec<u8>,
    /// An optional model override.
    pub model: Option<Vec<u8>>,
}

/// The mathematical image of an entry.
#[verifier::ext_equal]
pub ghost struct EntryView {
    pub scope: SubagentScope,
    pub workspace: Option<Seq<u8>>,
    pub subagent_key: Seq<u8>,
    pub description: Seq<u8>,
    pub prompt: Seq<u8>,
    pub model: Option<Seq<u8>>,
}

impl View for CodexSubagentConfigEntry {
    type V = EntryView;

    open spec fn view(&self) -> EntryView {
        EntryView {
            scope: self.scope,
            workspace: match self.workspace {
                Some(w) => Some(w@),
                None => None,
            },
            subagent_key: self.subagent_key@,
            description: self.description@,
            prompt: self.prompt@,
            model: match self.model {
                Some(m) => Some(m@),
                None => None,
            },
        }
    }
}

impl DeepView for CodexSubagentConfigEntry {
    type V = EntryView;

    open spec fn deep_view(&self) -> EntryView {
        self.view()
    }
}

impl Clone for CodexSubagentConfigEntry {
    /// A clone carries the same values.
    fn clone(&self) -> (r: Self)
        ensures
            r@ == self@,
    {
        let r = CodexSubagentConfigEntry {
            scope: self.scope,
            workspace: match &self.workspace {
                Some(w) => Some(subvec(w, 0, w.len())),
                None => None,
            },
            subagent_key: subvec(&self.subagent_key, 0, self.subagent_key.len()),
            description: subvec(&self.description, 0, self.description.len()),
            prompt: subvec(&self.prompt, 0, self.prompt.len()),
            model: match &self.model {
                Some(m) => Some(subvec(m, 0, m.len())),
                None => None,
            },
        };
        proof {
            assert(r@ =~~= self@);
        }
        r
    }
}

/// The errors a run can end with.
#[derive(Debug)]
pub enum CodexSubagentRegistryError {
    /// The home directory is neither absolute nor drive-rooted; holds
    /// the offending value.
    InvalidHomeDirectory(Vec<u8>),
    /// A write cannot be planned or performed; holds the cause.
    WriteFailed(Vec<u8>),
}

/// A snapshot of what the scanner may visit: whether the global
/// configuration already carries a managed region, and the directory
/// trees under the two scan roots, `None` where a root is missing.
pub struct ScanSnapshot {
    pub global_config_has_block: bool,
    pub dev_dirs: Option<Vec<DirNode>>,
    pub worktree_dirs: Option<Vec<DirNode>>,
}

/// One planned detail file.
pub struct DetailFile {
    pub path: Vec<u8>,
    pub contents: Vec<u8>,
}

/// The mathematical image of a detail file.
#[verifier::ext_equal]
pub ghost struct DetailFileView {
    pub path: Seq<u8>,
    pub contents: Seq<u8>,
}

impl View for DetailFile {
    type V = DetailFileView;

    open spec fn view(&self) -> DetailFileView {
        DetailFileView { path: self.path@, contents: self.contents@ }
    }
}

impl DeepView for DetailFile {
    type V = DetailFileView;

    open spec fn deep_view(&self) -> DetailFileView {
        self.view()
    }
}

/// Everything one destination needs written: the directories to
/// create, the detail files, and the body to merge into the managed
/// region of the configuration file.
pub struct DestinationPlan {
    pub config_path: Vec<u8>,
    pub base_dir: Vec<u8>,
    pub agents_dir: Vec<u8>,
    pub detail_files: Vec<DetailFile>,
    pub block_body: Vec<u8>,
}

/// The mathematical image of a destination plan.
#[verifier::ext_equal]
pub ghost struct PlanView {
    pub config_path: Seq<u8>,
    pub base_dir: Seq<u8>,
    pub agents_dir: Seq<u8>,
    pub detail_files: Seq<DetailFileView>,
    pub block_body: Seq<u8>,
}

impl View for DestinationPlan {
    type V = PlanView;

    open spec fn view(&self) -> PlanView {
        PlanView {
            config_path: self.config_path@,
            base_dir: self.base_dir@,
            agents_dir: self.agents_dir@,
            detail_files: self.detail_files.deep_view(),
            block_body: self.block_body@,
        }
    }
}

impl DeepView for DestinationPlan {
    type V = PlanView;

    open spec fn deep_view(&self) -> PlanView {
        self.view()
    }
}
/// Bytes of the drive-letter separator `:\`.
pub open spec fn drive_pattern() -> Seq<u8> {
    seq![58u8, 92u8]
}

fn drive_pattern_bytes() -> (r: Vec<u8>)
    ensures
        r@ == drive_pattern(),
{
    let mut v: Vec<u8> = Vec::new();
    v.push(58); v.push(92);
    proof {
        assert(v@ =~= drive_pattern());
    }
    v
}

/// Bytes of the workspaces root `/Dev` under the home directory.
pub open spec fn dev_suffix() -> Seq<u8> {
    seq![47u8, 68u8, 101u8, 118u8]
}

fn dev_suffix_bytes() -> (r: Vec<u8>)
    ensures
        r@ == dev_suffix(),
{
    let mut v: Vec<u8> = Vec::new();
    v.push(47); v.push(68); v.push(101); v.push(118);
    proof {
        assert(v@ =~= dev_suffix());
    }
    v
}

/// Bytes of the worktrees root `/.codex/worktrees` under the home directory.
pub open spec fn worktrees_suffix() -> Seq<u8> {
    seq![
        47u8, 46u8, 99u8, 111u8, 100u8, 101u8, 120u8, 47u8, 119u8, 111u8, 114u8, 107u8, 116u8, 114u8,
        101u8, 101u8, 115u8,
    ]
}

fn worktrees_suffix_bytes() -> (r: Vec<u8>)
    ensures
        r@ == worktrees_suffix(),
{
    let mut v: Vec<u8> = Vec::new();
    v.push(47); v.push(46); v.push(99); v.push(111); v.push(100); v.push(101); v.push(120); v.push(47); v.push(119); v.push(111); v.push(114); v.push(107);
    v.push(116); v.push(114); v.push(101); v.push(101); v.push(115);
    proof {
        assert(v@ =~= worktrees_suffix());
    }
    v
}

/// Bytes of the opening of the prompt field, `developer_instructions = """`.
pub open spec fn dev_instr_open() -> Seq<u8> {
    seq![
        100u8, 101u8, 118u8, 101u8, 108u8, 111u8, 112u8, 101u8, 114u8, 95u8, 105u8, 110u8, 115u8, 116u8,
        114u8, 117u8, 99u8, 116u8, 105u8, 111u8, 110u8, 115u8, 32u8, 61u8, 32u8, 34u8, 34u8, 34u8,
    ]
}

fn dev_instr_open_bytes() -> (r: Vec<u8>)
    ensures
        r@ == dev_instr_open(),
{
    let mut v: Vec<u8> = Vec::new();
    v.push(100); v.push(101); v.push(118); v.push(101); v.push(108); v.push(111); v.push(112); v.push(101); v.push(114); v.push(95); v.push(105); v.push(110);
    v.push(115); v.push(116); v.push(114); v.push(117); v.push(99); v.push(116); v.push(105); v.push(111); v.push(110); v.push(115); v.push(32); v.push(61);
    v.push(32); v.push(34); v.push(34); v.push(34);
    proof {
        assert(v@ =~= dev_instr_open());
    }
    v
}

/// Bytes of the multi-line string delimiter `"""`.
pub open spec fn triple_quote() -> Seq<u8> {
    seq![34u8, 34u8, 34u8]
}

fn triple_quote_bytes() -> (r: Vec<u8>)
    ensures
        r@ == triple_quote(),
{
    let mut v: Vec<u8> = Vec::new();
    v.push(34); v.push(34); v.push(34);
    proof {
        assert(v@ =~= triple_quote());
    }
    v
}

/// Bytes of the opening of the model field, `model = "`.
pub open spec fn model_open() -> Seq<u8> {
    seq![109u8, 111u8, 100u8, 101u8, 108u8, 32u8, 61u8, 32u8, 34u8]
}

fn model_open_bytes() -> (r: Vec<u8>)
    ensures
        r@ == model_open(),
{
    let mut v: Vec<u8> = Vec::new();
    v.push(109); v.push(111); v.push(100); v.push(101); v.push(108); v.push(32); v.push(61); v.push(32); v.push(34);
    proof {
        assert(v@ =~= model_open());
    }
    v
}

/// Bytes of a double quote.
pub open spec fn quote() -> Seq<u8> {
    seq![34u8]
}

fn quote_bytes() -> (r: Vec<u8>)
    ensures
        r@ == quote(),
{
    let mut v: Vec<u8> = Vec::new();
    v.push(34);
    proof {
        assert(v@ =~= quote());
    }
    v
}

/// Bytes of the opening of a section header, `[agents.`.
pub open spec fn section_open() -> Seq<u8> {
    seq![91u8, 97u8, 103u8, 101u8, 110u8, 116u8, 115u8, 46u8]
}

fn section_open_bytes() -> (r: Vec<u8>)
    ensures
        r@ == section_open(),
{
    let mut v: Vec<u8> = Vec::new();
    v.push(91); v.push(97); v.push(103); v.push(101); v.push(110); v.push(116); v.push(115); v.push(46);
    proof {
        assert(v@ =~= section_open());
    }
    v
}

/// Bytes of the closing bracket of a section header.
pub open spec fn section_close() -> Seq<u8> {
    seq![93u8]
}

fn section_close_bytes() -> (r: Vec<u8>)
    ensures
        r@ == section_close(),
{
    let mut v: Vec<u8> = Vec::new();
    v.push(93);
    proof {
        assert(v@ =~= section_close());
    }
    v
}

/// Bytes of the opening of the description field, `description = "`.
pub open spec fn description_open() -> Seq<u8> {
    seq![
        100u8, 101u8, 115u8, 99u8, 114u8, 105u8, 112u8, 116u8, 105u8, 111u8, 110u8, 32u8, 61u8, 32u8,
        34u8,
    ]
}

fn description_open_bytes() -> (r: Vec<u8>)
    ensures
        r@ == description_open(),
{
    let mut v: Vec<u8> = Vec::new();
    v.push(100); v.push(101); v.push(115); v.push(99); v.push(114); v.push(105); v.push(112); v.push(116); v.push(105); v.push(111); v.push(110); v.push(32);
    v.push(61); v.push(32); v.push(34);
    proof {
        assert(v@ =~= description_open());
    }
    v
}

/// Bytes of the opening of the detail-file reference, `config_file = "`.
pub open spec fn config_file_open() -> Seq<u8> {
    seq![
        99u8, 111u8, 110u8, 102u8, 105u8, 103u8, 95u8, 102u8, 105u8, 108u8, 101u8, 32u8, 61u8, 32u8,
        34u8,
    ]
}

fn config_file_open_bytes() -> (r: Vec<u8>)
    ensures
        r@ == config_file_open(),
{
    let mut v: Vec<u8> = Vec::new();
    v.push(99); v.push(111); v.push(110); v.push(102); v.push(105); v.push(103); v.push(95); v.push(102); v.push(105); v.push(108); v.push(101); v.push(32);
    v.push(61); v.push(32); v.push(34);
    proof {
        assert(v@ =~= config_file_open());
    }
    v
}

/// Bytes of the relative detail directory, `agents/`.
pub open spec fn agents_rel() -> Seq<u8> {
    seq![97u8, 103u8, 101u8, 110u8, 116u8, 115u8, 47u8]
}

fn agents_rel_bytes() -> (r: Vec<u8>)
    ensures
        r@ == agents_rel(),
{
    let mut v: Vec<u8> = Vec::new();
    v.push(97); v.push(103); v.push(101); v.push(110); v.push(116); v.push(115); v.push(47);
    proof {
        assert(v@ =~= agents_rel());
    }
    v
}

/// Bytes of the detail-file extension, `.toml`.
pub open spec fn toml_ext() -> Seq<u8> {
    seq![46u8, 116u8, 111u8, 109u8, 108u8]
}

fn toml_ext_bytes() -> (r: Vec<u8>)
    ensures
        r@ == toml_ext(),
{
    let mut v: Vec<u8> = Vec::new();
    v.push(46); v.push(116); v.push(111); v.push(109); v.push(108);
    proof {
        assert(v@ =~= toml_ext());
    }
    v
}

/// Bytes of the detail directory beside a configuration file, `/agents`.
pub open spec fn agents_dir_suffix() -> Seq<u8> {
    seq![47u8, 97u8, 103u8, 101u8, 110u8, 116u8, 115u8]
}

fn agents_dir_suffix_bytes() -> (r: Vec<u8>)
    ensures
        r@ == agents_dir_suffix(),
{
    let mut v: Vec<u8> = Vec::new();
    v.push(47); v.push(97); v.push(103); v.push(101); v.push(110); v.push(116); v.push(115);
    proof {
        assert(v@ =~= agents_dir_suffix());
    }
    v
}

/// Bytes of the message for a destination path without a parent directory.
pub open spec fn invalid_path_msg() -> Seq<u8> {
    seq![
        105u8, 110u8, 118u8, 97u8, 108u8, 105u8, 100u8, 32u8, 99u8, 111u8, 110u8, 102u8, 105u8, 103u8,
        32u8, 112u8, 97u8, 116u8, 104u8,
    ]
}

fn invalid_path_msg_bytes() -> (r: Vec<u8>)
    ensures
        r@ == invalid_path_msg(),
{
    let mut v: Vec<u8> = Vec::new();
    v.push(105); v.push(110); v.push(118); v.push(97); v.push(108); v.push(105); v.push(100); v.push(32); v.push(99); v.push(111); v.push(110); v.push(102);
    v.push(105); v.push(103); v.push(32); v.push(112); v.push(97); v.push(116); v.push(104);
    proof {
        assert(v@ =~= invalid_path_msg());
    }
    v
}
/// A home directory is accepted when it starts with `/` or carries a
/// drive-letter separator.
pub open spec fn is_valid_home(home: Seq<u8>) -> bool {
    (home.len() > 0 && home[0] == 47) || contains_sub(home, drive_pattern())
}

/// The configuration file an entry belongs to: the workspace's for a
/// project entry, the home's otherwise; a project entry without a
/// workspace belongs nowhere.
pub open spec fn resolved_config_path(e: EntryView, home: Seq<u8>) -> Option<Seq<u8>> {
    match e.scope {
        SubagentScope::Project => match e.workspace {
            Some(w) => Some(w + config_rel_path()),
            None => None,
        },
        SubagentScope::Global => Some(home + config_rel_path()),
    }
}

/// The distinct destination paths of a run, in first-appearance order.
pub open spec fn group_paths(entries: Seq<EntryView>, home: Seq<u8>) -> Seq<Seq<u8>>
    decreases entries.len(),
{
    if entries.len() == 0 {
        seq![]
    } else {
        let ps = group_paths(entries.drop_last(), home);
        match resolved_config_path(entries.last(), home) {
            Some(p) => if ps.contains(p) {
                ps
            } else {
                ps.push(p)
            },
            None => ps,
        }
    }
}

/// The entries routed to one destination, in list order.
pub open spec fn entries_for(entries: Seq<EntryView>, home: Seq<u8>, p: Seq<u8>) -> Seq<EntryView>
    decreases entries.len(),
{
    if entries.len() == 0 {
        seq![]
    } else {
        let rest = entries_for(entries.drop_last(), home, p);
        if resolved_config_path(entries.last(), home) == Some(p) {
            rest.push(entries.last())
        } else {
            rest
        }
    }
}

/// Destination paths extended by the stale ones the scanner found,
/// skipping any already present.
pub open spec fn merge_stale(have: Seq<Seq<u8>>, stale: Seq<Seq<u8>>) -> Seq<Seq<u8>>
    decreases stale.len(),
{
    if stale.len() == 0 {
        have
    } else {
        let h2 = if have.contains(stale[0]) {
            have
        } else {
            have.push(stale[0])
        };
        merge_stale(h2, stale.skip(1))
    }
}

/// Every destination path of a run: the grouped ones, then the stale
/// ones.
pub open spec fn all_group_paths(
    entries: Seq<EntryView>,
    stale: Seq<Seq<u8>>,
    home: Seq<u8>,
) -> Seq<Seq<u8>> {
    merge_stale(group_paths(entries, home), stale)
}

/// The position of the last `/` in a path, if any.
pub open spec fn last_slash(p: Seq<u8>) -> Option<int>
    decreases p.len(),
{
    if p.len() == 0 {
        None
    } else if p[p.len() - 1] == 47 {
        Some(p.len() - 1)
    } else {
        last_slash(p.take(p.len() - 1))
    }
}

/// The relative path of a key's detail file, `agents/<key>.toml`.
pub open spec fn detail_rel(key: Seq<u8>) -> Seq<u8> {
    agents_rel() + key + toml_ext()
}

/// The absolute path of a key's detail file under the detail
/// directory.
pub open spec fn detail_abs(agents_dir: Seq<u8>, key: Seq<u8>) -> Seq<u8> {
    agents_dir + seq![47u8] + key + toml_ext()
}

/// The contents of an entry's detail file: the escaped prompt in a
/// multi-line string, then the escaped model override if there is one,
/// with a trailing line feed.
pub open spec fn detail_contents(e: EntryView) -> Seq<u8> {
    dev_instr_open() + multiline_escaped(e.prompt) + triple_quote() + (match e.model {
        Some(m) => nl() + model_open() + toml_escaped(m) + quote(),
        None => Seq::<u8>::empty(),
    }) + nl()
}

/// An entry's labelled section in the aggregate block: header,
/// escaped description, and the escaped relative detail-file path.
pub open spec fn section_of(e: EntryView) -> Seq<u8> {
    section_open() + e.subagent_key + section_close() + nl() + description_open() + toml_escaped(
        e.description,
    ) + quote() + nl() + config_file_open() + toml_escaped(detail_rel(e.subagent_key)) + quote()
}

/// The aggregate block body: one section per entry in list order,
/// blank-line separated, with no trailing blank line.
pub open spec fn block_body_of(entries: Seq<EntryView>) -> Seq<u8>
    decreases entries.len(),
{
    if entries.len() == 0 {
        seq![]
    } else if entries.len() == 1 {
        section_of(entries[0])
    } else {
        section_of(entries[0]) + nl() + nl() + block_body_of(entries.skip(1))
    }
}

/// The plan for one destination, assuming its path has a parent.
pub open spec fn plan_view_of(p: Seq<u8>, es: Seq<EntryView>) -> PlanView {
    let bd = p.take(last_slash(p)->Some_0);
    let ad = bd + agents_dir_suffix();
    PlanView {
        config_path: p,
        base_dir: bd,
        agents_dir: ad,
        detail_files: es.map_values(
            |e: EntryView| DetailFileView {
                path: detail_abs(ad, e.subagent_key),
                contents: detail_contents(e),
            },
        ),
        block_body: block_body_of(es),
    }
}

/// The whole run's plan, one destination at a time.
pub open spec fn sync_plan_spec(
    entries: Seq<EntryView>,
    stale: Seq<Seq<u8>>,
    home: Seq<u8>,
) -> Seq<PlanView> {
    all_group_paths(entries, stale, home).map(
        |i: int, p: Seq<u8>| plan_view_of(p, entries_for(entries, home, p)),
    )
}

/// The candidate paths the scanner reports for a snapshot: the global
/// configuration when it carries a managed region, then the two
/// bounded roots, workspaces at two levels and worktrees at three.
pub open spec fn candidate_paths(home: Seq<u8>, snap: ScanSnapshot) -> Seq<Seq<u8>> {
    (if snap.global_config_has_block {
        seq![home + config_rel_path()]
    } else {
        seq![]
    }) + (match snap.dev_dirs {
        Some(ns) => configs_under_all(ns@, home + dev_suffix(), 2),
        None => seq![],
    }) + (match snap.worktree_dirs {
        Some(ns) => configs_under_all(ns@, home + worktrees_suffix(), 3),
        None => seq![],
    })
}
proof fn lemma_merge_stale_members(have: Seq<Seq<u8>>, stale: Seq<Seq<u8>>, q: Seq<u8>)
    requires
        merge_stale(have, stale).contains(q),
    ensures
        have.contains(q) || stale.contains(q),
    decreases stale.len(),
{
    if stale.len() > 0 {
        let h2 = if have.contains(stale[0]) {
            have
        } else {
            have.push(stale[0])
        };
        lemma_merge_stale_members(h2, stale.skip(1), q);
        if h2.contains(q) && !have.contains(q) {
            let w = choose|w: int| 0 <= w < h2.len() && h2[w] == q;
            if w < have.len() {
                assert(have[w] == q);
            } else {
                assert(q == stale[0]);
            }
        }
        if stale.skip(1).contains(q) {
            let w = choose|w: int| 0 <= w < stale.skip(1).len() && stale.skip(1)[w] == q;
            assert(stale[w + 1] == q);
        }
    }
}

/// A run with no definitions plans exactly the stale destinations the
/// scanner reported, each with an empty body: no other file is ever
/// rewritten by such a run.
pub proof fn lemma_empty_run_touches_only_stale(stale: Seq<Seq<u8>>, home: Seq<u8>)
    ensures
        ({
            let plans = sync_plan_spec(Seq::<EntryView>::empty(), stale, home);
            forall|i: int|
                0 <= i < plans.len() ==> (#[trigger] plans[i]).block_body
                    == Seq::<u8>::empty() && stale.contains(plans[i].config_path)
        }),
{
    let dv = Seq::<EntryView>::empty();
    let paths = all_group_paths(dv, stale, home);
    let plans = sync_plan_spec(dv, stale, home);
    assert forall|i: int|
        0 <= i < plans.len() implies (#[trigger] plans[i]).block_body == Seq::<u8>::empty()
        && stale.contains(plans[i].config_path) by {
        assert(plans[i] == plan_view_of(paths[i], entries_for(dv, home, paths[i])));
        assert(entries_for(dv, home, paths[i]).len() == 0);
        assert(block_body_of(entries_for(dv, home, paths[i])) == Seq::<u8>::empty()) by {
            assert(block_body_of(Seq::<EntryView>::empty()) =~= Seq::<u8>::empty());
        }
        assert(paths.contains(paths[i]));
        lemma_merge_stale_members(group_paths(dv, home), stale, paths[i]);
        if group_paths(dv, home).contains(paths[i]) {
            let w = choose|w: int|
                0 <= w < group_paths(dv, home).len() && group_paths(dv, home)[w] == paths[i];
        }
    }
}

/// Grouping: two definitions with the same resolved destination and
/// different keys form one group holding both, in list order; they get
/// two distinct detail files and two labelled sections, blank-line
/// separated, in that same order.
pub proof fn lemma_grouping_two_entries(
    e1: EntryView,
    e2: EntryView,
    home: Seq<u8>,
    p: Seq<u8>,
    agents_dir: Seq<u8>,
)
    requires
        resolved_config_path(e1, home) == Some(p),
        resolved_config_path(e2, home) == Some(p),
        e1.subagent_key != e2.subagent_key,
    ensures
        group_paths(seq![e1, e2], home) == seq![p],
        entries_for(seq![e1, e2], home, p) == seq![e1, e2],
        detail_abs(agents_dir, e1.subagent_key) != detail_abs(agents_dir, e2.subagent_key),
        block_body_of(seq![e1, e2]) == section_of(e1) + nl() + nl() + section_of(e2),
{
    reveal_with_fuel(group_paths, 4);
    reveal_with_fuel(entries_for, 4);
    reveal_with_fuel(block_body_of, 3);
    let es = seq![e1, e2];
    assert(es.drop_last() =~= seq![e1]);
    assert(seq![e1].drop_last() =~= Seq::<EntryView>::empty());
    assert(group_paths(seq![e1], home) =~= seq![p]) by {
        assert(!Seq::<Seq<u8>>::empty().contains(p)) by {
            if Seq::<Seq<u8>>::empty().contains(p) {
                let w = choose|w: int|
                    0 <= w < Seq::<Seq<u8>>::empty().len() && Seq::<Seq<u8>>::empty()[w] == p;
            }
        }
        assert(Seq::<Seq<u8>>::empty().push(p) =~= seq![p]);
    }
    assert(seq![p].contains(p)) by {
        assert(seq![p][0] == p);
    }
    assert(group_paths(es, home) =~= seq![p]);
    assert(entries_for(seq![e1], home, p) =~= seq![e1]) by {
        assert(Seq::<EntryView>::empty().push(e1) =~= seq![e1]);
    }
    assert(entries_for(es, home, p) =~= seq![e1, e2]) by {
        assert(seq![e1].push(e2) =~= seq![e1, e2]);
    }
    let k1 = e1.subagent_key;
    let k2 = e2.subagent_key;
    let d1 = detail_abs(agents_dir, k1);
    let d2 = detail_abs(agents_dir, k2);
    if d1 == d2 {
        assert(k1.len() == k2.len()) by {
            assert(d1.len() == agents_dir.len() + 1 + k1.len() + toml_ext().len());
            assert(d2.len() == agents_dir.len() + 1 + k2.len() + toml_ext().len());
        }
        assert(k1 =~= k2) by {
            assert forall|i: int| 0 <= i < k1.len() implies k1[i] == k2[i] by {
                assert(d1[agents_dir.len() + 1 + i] == k1[i]);
                assert(d2[agents_dir.len() + 1 + i] == k2[i]);
            }
        }
    }
    assert(es.skip(1) =~= seq![e2]);
    assert(block_body_of(seq![e2]) == section_of(e2));
}

/// Whether `p` is one of `paths`.
fn contains_path(paths: &Vec<Vec<u8>>, p: &Vec<u8>) -> (r: bool)
    ensures
        r == paths.deep_view().contains(p@),
{
    let mut i: usize = 0;
    while i < paths.len()
        invariant
            i <= paths@.len(),
            forall|j: int| 0 <= j < i ==> paths.deep_view()[j] != p@,
        decreases paths.len() - i,
    {
        if bytes_eq(&paths[i], p) {
            proof {
                assert(paths.deep_view()[i as int] =~= paths@[i as int]@);
                assert(paths.deep_view()[i as int] == p@);
            }
            return true;
        }
        proof {
            assert(paths.deep_view()[i as int] =~= paths@[i as int]@);
        }
        i += 1;
    }
    proof {
        if paths.deep_view().contains(p@) {
            let j = choose|j: int|
                0 <= j < paths.deep_view().len() && paths.deep_view()[j] == p@;
            assert(paths.deep_view()[j] != p@);
        }
    }
    false
}

/// Keeps the first appearance of each path and drops later repeats.
fn dedup_paths(paths: &Vec<Vec<u8>>) -> (r: Vec<Vec<u8>>)
    ensures
        r.deep_view().no_duplicates(),
        r.deep_view().to_set() == paths.deep_view().to_set(),
{
    let ghost dv = paths.deep_view();
    let mut out: Vec<Vec<u8>> = Vec::new();
    let mut i: usize = 0;
    proof {
        assert(dv.take(0) =~= Seq::<Seq<u8>>::empty());
        assert(out.deep_view().to_set() =~= dv.take(0).to_set());
    }
    while i < paths.len()
        invariant
            i <= paths@.len(),
            dv == paths.deep_view(),
            dv.len() == paths@.len(),
            out.deep_view().no_duplicates(),
            out.deep_view().to_set() == dv.take(i as int).to_set(),
        decreases paths.len() - i,
    {
        let ghost pre = out.deep_view();
        let p = &paths[i];
        proof {
            assert(dv[i as int] =~= paths@[i as int]@);
        }
        if !contains_path(&out, p) {
            let copy = subvec(p, 0, p.len());
            out.push(copy);
            proof {
                assert(out.deep_view() =~~= pre.push(dv[i as int]));
                assert forall|a: int, b: int|
                    0 <= a < b < out.deep_view().len() implies out.deep_view()[a]
                    != out.deep_view()[b] by {
                    if b == out.deep_view().len() - 1 {
                        assert(pre[a] != dv[i as int]) by {
                            if pre[a] == dv[i as int] {
                                assert(pre.contains(dv[i as int]));
                            }
                        }
                    }
                }
            }
        } else {
            proof {
                assert(pre.contains(dv[i as int]));
                let w = choose|w: int| 0 <= w < pre.len() && pre[w] == dv[i as int];
                assert(pre.to_set().contains(dv[i as int]));
            }
        }
        proof {
            assert(dv.take(i + 1) =~= dv.take(i as int).push(dv[i as int]));
            dv.take(i as int).lemma_push_to_set_commute(dv[i as int]);
            pre.lemma_push_to_set_commute(dv[i as int]);
            assert(out.deep_view().to_set() =~= dv.take(i + 1).to_set());
        }
        i += 1;
    }
    proof {
        assert(dv.take(dv.len() as int) =~= dv);
    }
    out
}

/// The position of the last `/` in `p`.
fn last_slash_bytes(p: &Vec<u8>) -> (r: Option<usize>)
    ensures
        match r {
            Some(k) => k < p@.len() && last_slash(p@) == Some(k as int),
            None => last_slash(p@) is None,
        },
{
    let mut i: usize = p.len();
    proof {
        assert(p@.take(p@.len() as int) =~= p@);
    }
    while i > 0
        invariant
            i <= p@.len(),
            last_slash(p@) == last_slash(p@.take(i as int)),
        decreases i,
    {
        let ghost t = p@.take(i as int);
        if p[i - 1] == 47 {
            proof {
                assert(t[t.len() - 1] == 47);
            }
            return Some(i - 1);
        }
        proof {
            assert(t[t.len() - 1] != 47);
            assert(t.take(t.len() - 1) =~= p@.take(i - 1));
        }
        i -= 1;
    }
    proof {
        assert(p@.take(0).len() == 0);
    }
    None
}

/// Renders an entry's detail file: the escaped prompt and, when set,
/// the escaped model override.
pub fn render_subagent_config(entry: &CodexSubagentConfigEntry) -> (r: Vec<u8>)
    ensures
        r@ == detail_contents(entry@),
{
    let mut out = dev_instr_open_bytes();
    let esc = escape_multiline_toml(&entry.prompt);
    push_all(&mut out, &esc);
    let tq = triple_quote_bytes();
    push_all(&mut out, &tq);
    match &entry.model {
        Some(m) => {
            out.push(10);
            let mo = model_open_bytes();
            push_all(&mut out, &mo);
            let me = toml_escape(m);
            push_all(&mut out, &me);
            out.push(34);
        },
        None => {},
    }
    out.push(10);
    proof {
        assert(out@ =~= detail_contents(entry@));
    }
    out
}

/// Renders one entry's labelled section of the aggregate block.
fn render_section(entry: &CodexSubagentConfigEntry) -> (r: Vec<u8>)
    ensures
        r@ == section_of(entry@),
{
    let mut out = section_open_bytes();
    push_all(&mut out, &entry.subagent_key);
    out.push(93);
    out.push(10);
    let dopen = description_open_bytes();
    push_all(&mut out, &dopen);
    let desc = toml_escape(&entry.description);
    push_all(&mut out, &desc);
    out.push(34);
    out.push(10);
    let copen = config_file_open_bytes();
    push_all(&mut out, &copen);
    let mut rel = agents_rel_bytes();
    push_all(&mut rel, &entry.subagent_key);
    let ext = toml_ext_bytes();
    push_all(&mut rel, &ext);
    proof {
        assert(rel@ =~= detail_rel(entry@.subagent_key));
    }
    let rel_esc = toml_escape(&rel);
    push_all(&mut out, &rel_esc);
    out.push(34);
    proof {
        assert(out@ =~= section_of(entry@));
    }
    out
}

/// Renders the aggregate block body for one destination's entries, in
/// list order, blank-line separated.
pub fn render_block_body(entries: &Vec<CodexSubagentConfigEntry>) -> (r: Vec<u8>)
    ensures
        r@ == block_body_of(entries.deep_view()),
{
    let ghost dv = entries.deep_view();
    let mut out: Vec<u8> = Vec::new();
    let mut i: usize = 0;
    while i < entries.len()
        invariant
            i <= entries@.len(),
            dv == entries.deep_view(),
            dv.len() == entries@.len(),
            i == 0 ==> out@.len() == 0,
            i > 0 ==> block_body_of(dv) == out@ + (if i < dv.len() {
                nl() + nl() + block_body_of(dv.skip(i as int))
            } else {
                Seq::<u8>::empty()
            }),
        decreases entries.len() - i,
    {
        let ghost pre = out@;
        if i > 0 {
            out.push(10);
            out.push(10);
        }
        let sec = render_section(&entries[i]);
        push_all(&mut out, &sec);
        proof {
            let rest = dv.skip(i as int);
            assert(rest[0] == dv[i as int]);
            assert(rest.skip(1) =~= dv.skip(i + 1));
            if i + 1 < dv.len() {
                assert(block_body_of(rest) == section_of(dv[i as int]) + nl() + nl()
                    + block_body_of(dv.skip(i + 1)));
            } else if i < dv.len() {
                assert(rest.len() == 1);
                assert(block_body_of(rest) == section_of(dv[i as int]));
            }
            if i == 0 {
                assert(dv.skip(0) =~= dv);
                if dv.len() == 1 {
                    assert(out@ =~= block_body_of(dv));
                } else {
                    assert(out@ =~= section_of(dv[0]));
                    assert(block_body_of(dv) == out@ + (nl() + nl() + block_body_of(
                        dv.skip(1),
                    ))) by {
                        assert(block_body_of(dv) == section_of(dv[0]) + nl() + nl()
                            + block_body_of(dv.skip(1)));
                        assert(section_of(dv[0]) + nl() + nl() + block_body_of(dv.skip(1))
                            =~= section_of(dv[0]) + (nl() + nl() + block_body_of(dv.skip(1))));
                    }
                }
            } else {
                if i + 1 < dv.len() {
                    assert(block_body_of(dv) == out@ + (nl() + nl() + block_body_of(
                        dv.skip(i + 1),
                    ))) by {
                        assert(pre + (nl() + nl() + (section_of(dv[i as int]) + nl() + nl()
                            + block_body_of(dv.skip(i + 1)))) =~= out@ + (nl() + nl()
                            + block_body_of(dv.skip(i + 1))));
                    }
                } else {
                    assert(block_body_of(dv) == out@) by {
                        assert(pre + (nl() + nl() + section_of(dv[i as int])) =~= out@);
                    }
                }
            }
        }
        i += 1;
    }
    proof {
        if dv.len() == 0 {
            assert(out@ =~= block_body_of(dv));
        }
    }
    out
}
/// Writes managed subagent registries: resolves each definition to its
/// destination, finds stale destinations, and plans every file write.
pub struct CodexSubagentRegistryWriter {
    /// The home directory all global paths hang from.
    pub home_directory: Vec<u8>,
}

impl CodexSubagentRegistryWriter {
    /// A writer for the given home directory.
    pub fn new(home_directory: Vec<u8>) -> (r: Self)
        ensures
            r.home_directory == home_directory,
    {
        CodexSubagentRegistryWriter { home_directory }
    }

    /// Accepts the home directory or reports it invalid, before any
    /// file is touched.
    pub fn check_home(&self) -> (r: Result<(), CodexSubagentRegistryError>)
        ensures
            match r {
                Ok(_) => is_valid_home(self.home_directory@),
                Err(e) => !is_valid_home(self.home_directory@) && (e matches
                    CodexSubagentRegistryError::InvalidHomeDirectory(h) && h@
                    == self.home_directory@),
            },
    {
        let home = &self.home_directory;
        let valid = if home.len() > 0 && home[0] == 47 {
            true
        } else {
            let pat = drive_pattern_bytes();
            find_bytes_from(home, &pat, 0).is_some()
        };
        if valid {
            Ok(())
        } else {
            Err(CodexSubagentRegistryError::InvalidHomeDirectory(subvec(home, 0, home.len())))
        }
    }

    /// The configuration file an entry belongs to, or `None` for a
    /// project entry without a workspace.
    pub fn resolve_config_path(&self, entry: &CodexSubagentConfigEntry) -> (r: Option<Vec<u8>>)
        ensures
            match r {
                Some(p) => resolved_config_path(entry@, self.home_directory@) == Some(p@),
                None => resolved_config_path(entry@, self.home_directory@) is None,
            },
    {
        let rel = config_rel_bytes();
        match entry.scope {
            SubagentScope::Project => match &entry.workspace {
                Some(w) => {
                    let mut p = subvec(w, 0, w.len());
                    push_all(&mut p, &rel);
                    Some(p)
                },
                None => None,
            },
            SubagentScope::Global => {
                let mut p = subvec(&self.home_directory, 0, self.home_directory.len());
                push_all(&mut p, &rel);
                Some(p)
            },
        }
    }

    /// The distinct destination paths of the given entries, in
    /// first-appearance order.
    fn unique_group_paths(&self, entries: &Vec<CodexSubagentConfigEntry>) -> (r: Vec<Vec<u8>>)
        ensures
            r.deep_view() == group_paths(entries.deep_view(), self.home_directory@),
    {
        let ghost dv = entries.deep_view();
        let ghost home = self.home_directory@;
        let mut out: Vec<Vec<u8>> = Vec::new();
        let mut i: usize = 0;
        proof {
            assert(dv.take(0).len() == 0);
            assert(out.deep_view() =~= group_paths(dv.take(0), home));
        }
        while i < entries.len()
            invariant
                i <= entries@.len(),
                dv == entries.deep_view(),
                dv.len() == entries@.len(),
                home == self.home_directory@,
                out.deep_view() == group_paths(dv.take(i as int), home),
            decreases entries.len() - i,
        {
            let ghost pre = out.deep_view();
            proof {
                assert(dv.take(i + 1).drop_last() =~= dv.take(i as int));
                assert(dv.take(i + 1).last() == dv[i as int]);
            }
            match self.resolve_config_path(&entries[i]) {
                Some(p) => {
                    if !contains_path(&out, &p) {
                        out.push(p);
                        proof {
                            assert(out.deep_view() =~~= pre.push(
                                resolved_config_path(dv[i as int], home)->Some_0,
                            ));
                        }
                    }
                },
                None => {},
            }
            i += 1;
        }
        proof {
            assert(dv.take(dv.len() as int) =~= dv);
        }
        out
    }

    /// The entries of one destination, cloned, in list order.
    fn entries_resolving_to(
        &self,
        entries: &Vec<CodexSubagentConfigEntry>,
        p: &Vec<u8>,
    ) -> (r: Vec<CodexSubagentConfigEntry>)
        ensures
            r.deep_view() == entries_for(entries.deep_view(), self.home_directory@, p@),
    {
        let ghost dv = entries.deep_view();
        let ghost home = self.home_directory@;
        let mut out: Vec<CodexSubagentConfigEntry> = Vec::new();
        let mut i: usize = 0;
        proof {
            assert(dv.take(0).len() == 0);
            assert(out.deep_view() =~= entries_for(dv.take(0), home, p@));
        }
        while i < entries.len()
            invariant
                i <= entries@.len(),
                dv == entries.deep_view(),
                dv.len() == entries@.len(),
                home == self.home_directory@,
                out.deep_view() == entries_for(dv.take(i as int), home, p@),
            decreases entries.len() - i,
        {
            let ghost pre = out.deep_view();
            proof {
                assert(dv.take(i + 1).drop_last() =~= dv.take(i as int));
                assert(dv.take(i + 1).last() == dv[i as int]);
            }
            let matching = match self.resolve_config_path(&entries[i]) {
                Some(q) => bytes_eq(&q, p),
                None => false,
            };
            if matching {
                out.push(entries[i].clone());
                proof {
                    assert(out.deep_view() =~~= pre.push(dv[i as int]));
                }
            }
            i += 1;
        }
        proof {
            assert(dv.take(dv.len() as int) =~= dv);
        }
        out
    }

    /// The configuration files that already carry a managed region:
    /// the global one when marked, and those the bounded scan of the
    /// two roots reports, without repeats and in no promised order.
    pub fn find_managed_config_candidates(&self, snapshot: &ScanSnapshot) -> (r: Vec<Vec<u8>>)
        ensures
            r.deep_view().no_duplicates(),
            r.deep_view().to_set() == candidate_paths(self.home_directory@, *snapshot).to_set(),
    {
        let ghost home = self.home_directory@;
        let mut raw: Vec<Vec<u8>> = Vec::new();
        let ghost g = if snapshot.global_config_has_block {
            seq![home + config_rel_path()]
        } else {
            Seq::<Seq<u8>>::empty()
        };
        if snapshot.global_config_has_block {
            let mut p = subvec(&self.home_directory, 0, self.home_directory.len());
            let rel = config_rel_bytes();
            push_all(&mut p, &rel);
            raw.push(p);
        }
        proof {
            assert(raw.deep_view() =~~= g);
        }
        let ghost d = match &snapshot.dev_dirs {
            Some(ns) => configs_under_all(ns@, home + dev_suffix(), 2),
            None => Seq::<Seq<u8>>::empty(),
        };
        match &snapshot.dev_dirs {
            Some(ns) => {
                let mut root = subvec(&self.home_directory, 0, self.home_directory.len());
                let suf = dev_suffix_bytes();
                push_all(&mut root, &suf);
                proof {
                    assert(root@ =~= home + dev_suffix());
                }
                collect_configs(ns, &root, 2, &mut raw);
            },
            None => {
                proof {
                    assert(raw.deep_view() + d =~= raw.deep_view());
                }
            },
        }
        proof {
            assert(raw.deep_view() =~= g + d);
        }
        let ghost w = match &snapshot.worktree_dirs {
            Some(ns) => configs_under_all(ns@, home + worktrees_suffix(), 3),
            None => Seq::<Seq<u8>>::empty(),
        };
        match &snapshot.worktree_dirs {
            Some(ns) => {
                let mut root = subvec(&self.home_directory, 0, self.home_directory.len());
                let suf = worktrees_suffix_bytes();
                push_all(&mut root, &suf);
                proof {
                    assert(root@ =~= home + worktrees_suffix());
                }
                collect_configs(ns, &root, 3, &mut raw);
            },
            None => {
                proof {
                    assert(raw.deep_view() + w =~= raw.deep_view());
                }
            },
        }
        proof {
            assert(raw.deep_view() =~= (g + d) + w);
            assert((g + d) + w =~= candidate_paths(home, *snapshot));
        }
        dedup_paths(&raw)
    }

    /// Merges a body into the managed region of a destination's
    /// current text.
    pub fn upsert_managed_block(&self, current: &Vec<u8>, body: &Vec<u8>) -> (r: Vec<u8>)
        ensures
            r@ == upsert_spec(current@, body@),
    {
        upsert_block(current, body)
    }

    /// Plans a whole run: validates the home directory, groups the
    /// entries by destination, adds the stale destinations with no
    /// entries, and renders every file each destination needs.
    pub fn build_sync_plan(
        &self,
        entries: &Vec<CodexSubagentConfigEntry>,
        stale_configs: &Vec<Vec<u8>>,
    ) -> (r: Result<Vec<DestinationPlan>, CodexSubagentRegistryError>)
        ensures
            ({
                let home = self.home_directory@;
                let dv = entries.deep_view();
                let stale = stale_configs.deep_view();
                let paths = all_group_paths(dv, stale, home);
                match r {
                    Ok(plans) => {
                        &&& is_valid_home(home)
                        &&& forall|j: int|
                            0 <= j < paths.len() ==> last_slash(#[trigger] paths[j]) is Some
                        &&& plans.deep_view() == sync_plan_spec(dv, stale, home)
                    },
                    Err(e) => match e {
                        CodexSubagentRegistryError::InvalidHomeDirectory(h) => !is_valid_home(home)
                            && h@ == home,
                        CodexSubagentRegistryError::WriteFailed(m) => is_valid_home(home) && m@
                            == invalid_path_msg() && exists|j: int|
                            0 <= j < paths.len() && last_slash(#[trigger] paths[j]) is None,
                    },
                }
            }),
    {
        let ghost home = self.home_directory@;
        let ghost dv = entries.deep_view();
        let ghost stale = stale_configs.deep_view();
        if let Err(e) = self.check_home() {
            return Err(e);
        }
        let mut paths = self.unique_group_paths(entries);
        let ghost have0 = paths.deep_view();
        let mut i: usize = 0;
        proof {
            assert(stale.skip(0) =~= stale);
        }
        while i < stale_configs.len()
            invariant
                i <= stale_configs@.len(),
                stale == stale_configs.deep_view(),
                stale.len() == stale_configs@.len(),
                merge_stale(have0, stale) == merge_stale(
                    paths.deep_view(),
                    stale.skip(i as int),
                ),
            decreases stale_configs.len() - i,
        {
            let ghost pre = paths.deep_view();
            let ghost rest = stale.skip(i as int);
            let p = &stale_configs[i];
            proof {
                assert(rest[0] =~= p@);
                assert(rest.skip(1) =~= stale.skip(i + 1));
            }
            if !contains_path(&paths, p) {
                let copy = subvec(p, 0, p.len());
                paths.push(copy);
                proof {
                    assert(paths.deep_view() =~~= pre.push(rest[0]));
                }
            }
            i += 1;
        }
        proof {
            assert(stale.skip(stale.len() as int).len() == 0);
        }
        let ghost all_paths = all_group_paths(dv, stale, home);
        proof {
            assert(paths.deep_view() == all_paths);
        }
        let mut plans: Vec<DestinationPlan> = Vec::new();
        let mut k: usize = 0;
        while k < paths.len()
            invariant
                k <= paths@.len(),
                paths.deep_view() == all_paths,
                all_paths.len() == paths@.len(),
                is_valid_home(home),
                dv == entries.deep_view(),
                home == self.home_directory@,
                all_paths == all_group_paths(dv, stale_configs.deep_view(), home),
                forall|j: int| 0 <= j < k ==> last_slash(#[trigger] all_paths[j]) is Some,
                plans@.len() == k,
                forall|m: int|
                    0 <= m < k ==> (#[trigger] plans@[m]).deep_view() == plan_view_of(
                        all_paths[m],
                        entries_for(dv, home, all_paths[m]),
                    ),
            decreases paths.len() - k,
        {
            let ghost pv = all_paths[k as int];
            proof {
                assert(pv =~= paths@[k as int]@);
            }
            let sl_opt = last_slash_bytes(&paths[k]);
            if sl_opt.is_none() {
                let msg = invalid_path_msg_bytes();
                proof {
                    assert(last_slash(all_paths[k as int]) is None);
                }
                return Err(CodexSubagentRegistryError::WriteFailed(msg));
            }
            let sl = sl_opt.unwrap();
            let cpath = subvec(&paths[k], 0, paths[k].len());
            let base = subvec(&cpath, 0, sl);
            let mut agents = subvec(&base, 0, base.len());
            let adsuf = agents_dir_suffix_bytes();
            push_all(&mut agents, &adsuf);
            let group = self.entries_resolving_to(entries, &cpath);
            let ghost es = entries_for(dv, home, pv);
            proof {
                assert(cpath@ == pv);
                assert(group.deep_view() == es);
                assert(base@ =~= pv.take(last_slash(pv)->Some_0));
                assert(agents@ =~= pv.take(last_slash(pv)->Some_0) + agents_dir_suffix());
            }
            let mut details: Vec<DetailFile> = Vec::new();
            let mut j: usize = 0;
            while j < group.len()
                invariant
                    j <= group@.len(),
                    es == group.deep_view(),
                    es.len() == group@.len(),
                    details@.len() == j,
                    forall|m: int|
                        0 <= m < j ==> (#[trigger] details@[m]).path@ == detail_abs(
                            agents@,
                            es[m].subagent_key,
                        ) && details@[m].contents@ == detail_contents(es[m]),
                decreases group.len() - j,
            {
                let e = &group[j];
                let mut dpath = subvec(&agents, 0, agents.len());
                dpath.push(47);
                push_all(&mut dpath, &e.subagent_key);
                let ext = toml_ext_bytes();
                push_all(&mut dpath, &ext);
                proof {
                    assert(dpath@ =~= detail_abs(agents@, es[j as int].subagent_key));
                    assert(e@ == es[j as int]);
                }
                let contents = render_subagent_config(e);
                details.push(DetailFile { path: dpath, contents });
                j += 1;
            }
            proof {
                assert(details.deep_view() =~~= es.map_values(
                    |e: EntryView| DetailFileView {
                        path: detail_abs(agents@, e.subagent_key),
                        contents: detail_contents(e),
                    },
                ));
            }
            let body = render_block_body(&group);
            let ghost preplans = plans.deep_view();
            plans.push(
                DestinationPlan {
                    config_path: cpath,
                    base_dir: base,
                    agents_dir: agents,
                    detail_files: details,
                    block_body: body,
                },
            );
            proof {
                assert(plans@[k as int].deep_view() =~~= plan_view_of(pv, es));
            }
            k += 1;
        }
        proof {
            assert(plans.deep_view() =~~= sync_plan_spec(dv, stale_configs.deep_view(), home));
        }
        Ok(plans)
    }
}

} // verus!
