//! The mount materializer, as a planner: from the merged tree and what the
//! running system shows at its paths, the exact list of mount operations,
//! each tagged with the unit that a failure of it abandons.

use vstd::prelude::*;
use crate::node::{NodeFileType, EntryKind, Node, NodeView, child_index, kind_node_type, lemma_view, opt_view};

verus! {

/// An entry of a real directory.
#[derive(Debug)]
pub struct RealEntry {
    pub name: String,
    /// Its type, without following symlinks.
    pub kind: EntryKind,
    /// Whether the path exists once symlinks are followed.
    pub exists: bool,
}

/// What the running system shows at the path of a merged directory.
#[derive(Debug)]
pub struct RealDir {
    pub path: String,
    /// Whether the path exists once symlinks are followed.
    pub exists: bool,
    /// Its entries; `None` when it cannot be listed.
    pub entries: Option<Vec<RealEntry>>,
}

/// Why a node cannot be mounted.
#[derive(PartialEq, Eq, Structural, Clone, Copy, Debug)]
pub enum FailReason {
    /// A symlink with no module behind it.
    RootSymlink,
    /// A file with no module behind it.
    RootFile,
    /// A shadowed directory with neither a real path nor a module to copy
    /// its attributes from.
    RootDir,
    /// An opaque directory with no module behind it.
    ReplacedRoot,
    /// The real directory cannot be listed.
    Unreadable,
}

/// One filesystem or mount operation.
#[derive(Debug, Clone, PartialEq, Eq)]
pub enum MountOp {
    /// Create the directory `work` (and its parents) with the mode, owner and
    /// security label of `source`.
    MakeShadowDir { work: String, source: String },
    /// Bind-mount `work` onto itself.
    BindSelf { work: String },
    /// Create an empty file at `target`.
    CreateFile { target: String },
    /// Bind-mount `source` onto `target`; when it fails and `register_on_failure`
    /// holds, `target` is registered as one to unmount.
    Bind { source: String, target: String, register_on_failure: bool },
    /// Remount `target` read-only; a failure is only reported.
    RemountReadOnly { target: String },
    /// Recreate the symlink `source` at `target`, with its security label.
    CloneSymlink { source: String, target: String },
    /// Reproduce the real directory `path` at `work`: create it with the
    /// same mode, owner and label, then mirror each of its entries.
    MirrorDir { path: String, work: String },
    /// Move the mount at `from` onto `to`.
    MoveMount { from: String, to: String },
    /// Make the mount at `target` private; a failure is only reported.
    MakePrivate { target: String },
    /// Register `target` as one to unmount; the outcome is ignored.
    RegisterUnmountable { target: String },
    /// Always fails.
    Fail { path: String, reason: FailReason },
}

pub ghost enum OpView {
    MakeShadowDir { work: Seq<char>, source: Seq<char> },
    BindSelf { work: Seq<char> },
    CreateFile { target: Seq<char> },
    Bind { source: Seq<char>, target: Seq<char>, register_on_failure: bool },
    RemountReadOnly { target: Seq<char> },
    CloneSymlink { source: Seq<char>, target: Seq<char> },
    MirrorDir { path: Seq<char>, work: Seq<char> },
    MoveMount { from: Seq<char>, to: Seq<char> },
    MakePrivate { target: Seq<char> },
    RegisterUnmountable { target: Seq<char> },
    Fail { path: Seq<char>, reason: FailReason },
}

impl MountOp {
    pub open spec fn view(&self) -> OpView {
        match self {
            MountOp::MakeShadowDir { work, source } => OpView::MakeShadowDir { work: work@, source: source@ },
            MountOp::BindSelf { work } => OpView::BindSelf { work: work@ },
            MountOp::CreateFile { target } => OpView::CreateFile { target: target@ },
            MountOp::Bind { source, target, register_on_failure } => OpView::Bind {
                source: source@,
                target: target@,
                register_on_failure: *register_on_failure,
            },
            MountOp::RemountReadOnly { target } => OpView::RemountReadOnly { target: target@ },
            MountOp::CloneSymlink { source, target } => OpView::CloneSymlink { source: source@, target: target@ },
            MountOp::MirrorDir { path, work } => OpView::MirrorDir { path: path@, work: work@ },
            MountOp::MoveMount { from, to } => OpView::MoveMount { from: from@, to: to@ },
            MountOp::MakePrivate { target } => OpView::MakePrivate { target: target@ },
            MountOp::RegisterUnmountable { target } => OpView::RegisterUnmountable { target: target@ },
            MountOp::Fail { path, reason } => OpView::Fail { path: path@, reason: *reason },
        }
    }

    /// Operations whose failure is reported and otherwise ignored.
    pub open spec fn spec_best_effort(&self) -> bool {
        match self {
            MountOp::RemountReadOnly { .. } => true,
            MountOp::MakePrivate { .. } => true,
            MountOp::RegisterUnmountable { .. } => true,
            _ => false,
        }
    }

    #[verifier::when_used_as_spec(spec_best_effort)]
    pub fn best_effort(&self) -> (r: bool)
        ensures
            r == self.spec_best_effort(),
    {
        match self {
            MountOp::RemountReadOnly { .. } => true,
            MountOp::MakePrivate { .. } => true,
            MountOp::RegisterUnmountable { .. } => true,
            _ => false,
        }
    }
}

/// One planned operation. A failure of an operation that is not best effort
/// abandons the remaining steps of its unit; in a `fatal` step it ends the
/// whole run.
#[derive(Debug, Clone, PartialEq, Eq)]
pub struct Step {
    pub op: MountOp,
    pub unit: String,
    pub fatal: bool,
}

pub ghost struct StepView {
    pub op: OpView,
    pub unit: Seq<char>,
    pub fatal: bool,
}

impl Step {
    pub open spec fn view(&self) -> StepView {
        StepView { op: self.op@, unit: self.unit@, fatal: self.fatal }
    }
}

pub open spec fn steps_view(v: Seq<Step>) -> Seq<StepView> {
    v.map_values(|s: Step| s@)
}

pub open spec fn ops_view(v: Seq<MountOp>) -> Seq<OpView> {
    v.map_values(|s: MountOp| s@)
}

/// Where a node stands in the walk: its real path, its path in the scratch
/// area, whether an ancestor opened a shadow, and the unit its steps go to.
pub ghost struct At {
    pub path: Seq<char>,
    pub work: Seq<char>,
    pub has_tmpfs: bool,
    pub unit: Seq<char>,
    pub fatal: bool,
}

/// `name` below `p`, with one separator between them.
pub open spec fn joined(p: Seq<char>, name: Seq<char>) -> Seq<char> {
    if p.len() > 0 && p.last() == '/' {
        p + name
    } else {
        p + seq!['/'] + name
    }
}

pub open spec fn find_real(snap: Seq<RealDir>, path: Seq<char>) -> Option<RealDir>
    decreases snap.len(),
{
    if snap.len() == 0 {
        None
    } else if snap[0].path@ == path {
        Some(snap[0])
    } else {
        find_real(snap.drop_first(), path)
    }
}

pub open spec fn find_entry(es: Seq<RealEntry>, name: Seq<char>) -> Option<RealEntry>
    decreases es.len(),
{
    if es.len() == 0 {
        None
    } else if es[0].name@ == name {
        Some(es[0])
    } else {
        find_entry(es.drop_first(), name)
    }
}

pub open spec fn real_exists(snap: Seq<RealDir>, path: Seq<char>) -> bool {
    match find_real(snap, path) {
        Some(d) => d.exists,
        None => false,
    }
}

pub open spec fn real_listing(snap: Seq<RealDir>, path: Seq<char>) -> Option<Seq<RealEntry>> {
    match find_real(snap, path) {
        Some(d) => match d.entries {
            Some(es) => Some(es@),
            None => None,
        },
        None => None,
    }
}

/// The real entry at `name` below `path`, as its parent's listing shows it.
pub open spec fn real_child(snap: Seq<RealDir>, path: Seq<char>, name: Seq<char>) -> Option<RealEntry> {
    match real_listing(snap, path) {
        Some(es) => find_entry(es, name),
        None => None,
    }
}

/// A child asks for a shadow of its parent: a symlink always; a whiteout when
/// something real is there to hide; anything else when the real entry is
/// absent, of another type, or a symlink.
pub open spec fn needs_shadow(c: NodeView, e: Option<RealEntry>) -> bool {
    match c.file_type {
        NodeFileType::Symlink => true,
        NodeFileType::Whiteout => match e {
            Some(e) => e.exists,
            None => false,
        },
        _ => match e {
            Some(e) => kind_node_type(e.kind) != c.file_type || kind_node_type(e.kind) == NodeFileType::Symlink,
            None => true,
        },
    }
}

pub open spec fn child_needs(n: NodeView, at: At, j: int, snap: Seq<RealDir>) -> bool {
    needs_shadow(n.children[j], real_child(snap, at.path, n.children[j].name))
}

/// The directory opens a shadow of its own: outside any shadow, with a
/// module behind it, when it is opaque or a child asks for one.
pub open spec fn opens_tmpfs(n: NodeView, at: At, snap: Seq<RealDir>) -> bool {
    &&& !at.has_tmpfs
    &&& n.module_source is Some
    &&& (n.replace || exists|j: int| 0 <= j < n.children.len() && child_needs(n, at, j, snap))
}

pub open spec fn dir_has_tmpfs(n: NodeView, at: At, snap: Seq<RealDir>) -> bool {
    at.has_tmpfs || opens_tmpfs(n, at, snap)
}

/// A child left out: flagged already, or asking for a shadow that a
/// directory with no module behind it cannot open.
pub open spec fn child_skipped(n: NodeView, at: At, j: int, snap: Seq<RealDir>) -> bool {
    n.children[j].skip || (!at.has_tmpfs && n.module_source is None && child_needs(n, at, j, snap))
}

pub open spec fn child_at(n: NodeView, at: At, j: int, snap: Seq<RealDir>) -> At {
    let has2 = dir_has_tmpfs(n, at, snap);
    let p = joined(at.path, n.children[j].name);
    At {
        path: p,
        work: joined(at.work, n.children[j].name),
        has_tmpfs: has2,
        unit: if has2 { at.unit } else { p },
        fatal: has2 && at.fatal,
    }
}

pub open spec fn tag(at: At, op: OpView) -> StepView {
    StepView { op, unit: at.unit, fatal: at.fatal }
}

pub open spec fn tag_all(at: At, ops: Seq<OpView>) -> Seq<StepView> {
    ops.map_values(|op: OpView| tag(at, op))
}

/// How a real entry that no module overrides is reproduced in a shadow.
pub open spec fn mirror_ops(path: Seq<char>, work: Seq<char>, e: RealEntry) -> Seq<OpView> {
    let src = joined(path, e.name@);
    let dst = joined(work, e.name@);
    match e.kind {
        EntryKind::File => seq![
            OpView::CreateFile { target: dst },
            OpView::Bind { source: src, target: dst, register_on_failure: false },
        ],
        EntryKind::Dir => seq![OpView::MirrorDir { path: src, work: dst }],
        EntryKind::Symlink => seq![OpView::CloneSymlink { source: src, target: dst }],
        _ => seq![],
    }
}

pub open spec fn symlink_steps(n: NodeView, at: At) -> Seq<StepView> {
    match n.module_source {
        Some(m) => seq![tag(at, OpView::CloneSymlink { source: m, target: at.work })],
        None => seq![tag(at, OpView::Fail { path: at.path, reason: FailReason::RootSymlink })],
    }
}

pub open spec fn file_steps(n: NodeView, at: At, umount: bool) -> Seq<StepView> {
    let pre = if at.has_tmpfs {
        seq![tag(at, OpView::CreateFile { target: at.work })]
    } else {
        seq![]
    };
    pre + match n.module_source {
        Some(m) => {
            let t = if at.has_tmpfs { at.work } else { at.path };
            seq![
                tag(at, OpView::Bind { source: m, target: t, register_on_failure: umount }),
                tag(at, OpView::RemountReadOnly { target: t }),
            ]
        },
        None => seq![tag(at, OpView::Fail { path: at.path, reason: FailReason::RootFile })],
    }
}

/// Creating the shadow directory, and making it a mount point when the
/// directory opens the shadow itself.
pub open spec fn shadow_steps(n: NodeView, at: At, snap: Seq<RealDir>) -> Seq<StepView> {
    let source = if real_exists(snap, at.path) { at.path } else { n.module_source->0 };
    let make = if dir_has_tmpfs(n, at, snap) {
        seq![tag(at, OpView::MakeShadowDir { work: at.work, source })]
    } else {
        seq![]
    };
    let bind = if opens_tmpfs(n, at, snap) {
        seq![tag(at, OpView::BindSelf { work: at.work })]
    } else {
        seq![]
    };
    make + bind
}

/// Moving an opened shadow onto the real path.
pub open spec fn finish_steps(n: NodeView, at: At, snap: Seq<RealDir>, umount: bool) -> Seq<StepView> {
    if opens_tmpfs(n, at, snap) {
        seq![
            tag(at, OpView::RemountReadOnly { target: at.work }),
            tag(at, OpView::MoveMount { from: at.work, to: at.path }),
            tag(at, OpView::MakePrivate { target: at.path }),
        ] + if umount {
            seq![tag(at, OpView::RegisterUnmountable { target: at.path })]
        } else {
            seq![]
        }
    } else {
        seq![]
    }
}

/// The real listing is walked: the path exists and the directory is not opaque.
pub open spec fn walks_listing(n: NodeView, at: At, snap: Seq<RealDir>) -> bool {
    real_exists(snap, at.path) && !n.replace
}

/// A child that an earlier entry of the listing, before `i`, already took.
pub open spec fn taken_before(n: NodeView, es: Seq<RealEntry>, i: int, j: int) -> bool {
    exists|k: int| 0 <= k < i && child_index(n.children, (#[trigger] es[k]).name@) == Some(j)
}

pub open spec fn consumed(n: NodeView, at: At, j: int, snap: Seq<RealDir>) -> bool {
    walks_listing(n, at, snap) && match real_listing(snap, at.path) {
        Some(es) => taken_before(n, es, es.len() as int, j),
        None => false,
    }
}

/// The steps of a node and everything below it.
pub open spec fn node_steps(n: NodeView, at: At, snap: Seq<RealDir>, umount: bool) -> Seq<StepView>
    decreases n, 3int, 0int,
{
    match n.file_type {
        NodeFileType::Whiteout => seq![],
        NodeFileType::Symlink => symlink_steps(n, at),
        NodeFileType::RegularFile => file_steps(n, at, umount),
        NodeFileType::Directory => {
            if dir_has_tmpfs(n, at, snap) && !real_exists(snap, at.path) && n.module_source is None {
                seq![tag(at, OpView::Fail { path: at.path, reason: FailReason::RootDir })]
            } else if walks_listing(n, at, snap) && real_listing(snap, at.path) is None {
                shadow_steps(n, at, snap).push(
                    tag(at, OpView::Fail { path: at.path, reason: FailReason::Unreadable }),
                )
            } else if n.replace && n.module_source is None {
                shadow_steps(n, at, snap).push(
                    tag(at, OpView::Fail { path: at.path, reason: FailReason::ReplacedRoot }),
                )
            } else {
                shadow_steps(n, at, snap) + listed_steps(n, at, snap, umount) + rest_steps(
                    n,
                    at,
                    snap,
                    umount,
                ) + finish_steps(n, at, snap, umount)
            }
        },
    }
}

/// The steps for the real entries, in listing order: a child of that name
/// is mounted in its place, any other entry is mirrored in a shadow.
pub open spec fn listed_steps(n: NodeView, at: At, snap: Seq<RealDir>, umount: bool) -> Seq<StepView>
    decreases n, 2int, 0int,
{
    if walks_listing(n, at, snap) && real_listing(snap, at.path) is Some {
        let es = real_listing(snap, at.path)->0;
        listed_prefix(n, at, snap, umount, es.len() as int)
    } else {
        seq![]
    }
}

pub open spec fn listed_prefix(n: NodeView, at: At, snap: Seq<RealDir>, umount: bool, count: int) -> Seq<StepView>
    decreases n, 1int, count,
{
    if count <= 0 {
        seq![]
    } else {
        listed_prefix(n, at, snap, umount, count - 1) + listed_steps_at(n, at, snap, umount, count - 1)
    }
}

pub open spec fn listed_steps_at(n: NodeView, at: At, snap: Seq<RealDir>, umount: bool, i: int) -> Seq<StepView>
    decreases n, 0int, 0int,
{
    let es = real_listing(snap, at.path)->0;
    let mirror = if dir_has_tmpfs(n, at, snap) && 0 <= i < es.len() {
        tag_all(at, mirror_ops(at.path, at.work, es[i]))
    } else {
        seq![]
    };
    if 0 <= i < es.len() {
        match child_index(n.children, es[i].name@) {
            Some(j) => if taken_before(n, es, i, j) {
                mirror
            } else if 0 <= j < n.children.len() && !child_skipped(n, at, j, snap) {
                node_steps(n.children[j], child_at(n, at, j, snap), snap, umount)
            } else {
                seq![]
            },
            None => mirror,
        }
    } else {
        seq![]
    }
}

/// The steps for the children that no real entry took, in order.
pub open spec fn rest_steps(n: NodeView, at: At, snap: Seq<RealDir>, umount: bool) -> Seq<StepView>
    decreases n, 2int, 0int,
{
    rest_prefix(n, at, snap, umount, n.children.len() as int)
}

pub open spec fn rest_prefix(n: NodeView, at: At, snap: Seq<RealDir>, umount: bool, count: int) -> Seq<StepView>
    decreases n, 1int, count,
{
    if count <= 0 {
        seq![]
    } else {
        rest_prefix(n, at, snap, umount, count - 1) + rest_steps_at(n, at, snap, umount, count - 1)
    }
}

pub open spec fn rest_steps_at(n: NodeView, at: At, snap: Seq<RealDir>, umount: bool, j: int) -> Seq<StepView>
    decreases n, 0int, 0int,
{
    if 0 <= j < n.children.len() && !consumed(n, at, j, snap) && !child_skipped(n, at, j, snap) {
        node_steps(n.children[j], child_at(n, at, j, snap), snap, umount)
    } else {
        seq![]
    }
}

/// Where a node stands in the walk.
struct Frame {
    path: String,
    work: String,
    has_tmpfs: bool,
    unit: String,
    fatal: bool,
}

impl Frame {
    spec fn view(&self) -> At {
        At { path: self.path@, work: self.work@, has_tmpfs: self.has_tmpfs, unit: self.unit@, fatal: self.fatal }
    }
}

/// `name` below `p`, with one separator between them.
pub fn join_path(p: &String, name: &String) -> (r: String)
    ensures
        r@ == joined(p@, name@),
{
    let n = p.as_str().unicode_len();
    if n > 0 && p.as_str().get_char(n - 1) == '/' {
        p.clone().concat(name.as_str())
    } else {
        proof {
            reveal_strlit("/");
        }
        let r = p.clone().concat("/").concat(name.as_str());
        assert(r@ =~= p@ + seq!['/'] + name@);
        r
    }
}

fn tag_step(at: &Frame, op: MountOp) -> (r: Step)
    ensures
        r@ == tag(at@, op@),
{
    Step { op, unit: at.unit.clone(), fatal: at.fatal }
}

proof fn lemma_steps_push(v: Seq<Step>, x: Step)
    ensures
        steps_view(v.push(x)) == steps_view(v).push(x@),
{
    assert(steps_view(v.push(x)) =~= steps_view(v).push(x@));
}

proof fn lemma_steps_add(a: Seq<Step>, b: Seq<Step>)
    ensures
        steps_view(a + b) == steps_view(a) + steps_view(b),
{
    assert(steps_view(a + b) =~= steps_view(a) + steps_view(b));
}

fn find_real_index(snap: &Vec<RealDir>, path: &String) -> (r: Option<usize>)
    ensures
        match r {
            Some(j) => j < snap.len() && find_real(snap@, path@) == Some(snap@[j as int]),
            None => find_real(snap@, path@) is None,
        },
{
    let mut j: usize = 0;
    assert(snap@.skip(0) =~= snap@);
    while j < snap.len()
        invariant
            j <= snap.len(),
            find_real(snap@, path@) == find_real(snap@.skip(j as int), path@),
        decreases snap.len() - j,
    {
        assert(snap@.skip(j as int).drop_first() =~= snap@.skip(j + 1));
        if snap[j].path == *path {
            return Some(j);
        }
        j += 1;
    }
    None
}

fn find_entry_index(es: &Vec<RealEntry>, name: &String) -> (r: Option<usize>)
    ensures
        match r {
            Some(j) => j < es.len() && find_entry(es@, name@) == Some(es@[j as int]),
            None => find_entry(es@, name@) is None,
        },
{
    let mut j: usize = 0;
    assert(es@.skip(0) =~= es@);
    while j < es.len()
        invariant
            j <= es.len(),
            find_entry(es@, name@) == find_entry(es@.skip(j as int), name@),
        decreases es.len() - j,
    {
        assert(es@.skip(j as int).drop_first() =~= es@.skip(j + 1));
        if es[j].name == *name {
            return Some(j);
        }
        j += 1;
    }
    None
}

fn real_child_of<'a>(snap: &'a Vec<RealDir>, path: &String, d: Option<usize>, name: &String) -> (r: Option<&'a RealEntry>)
    requires
        match d {
            Some(k) => k < snap.len() && find_real(snap@, path@) == Some(snap@[k as int]),
            None => find_real(snap@, path@) is None,
        },
    ensures
        match r {
            Some(e) => real_child(snap@, path@, name@) == Some(*e),
            None => real_child(snap@, path@, name@) is None,
        },
{
    match d {
        Some(k) => match &snap[k].entries {
            Some(es) => match find_entry_index(es, name) {
                Some(i) => Some(&es[i]),
                None => None,
            },
            None => None,
        },
        None => None,
    }
}

fn needs_shadow_of(c: &Node, e: Option<&RealEntry>) -> (r: bool)
    ensures
        r == needs_shadow(
            c@,
            match e {
                Some(e) => Some(*e),
                None => None,
            },
        ),
{
    proof {
        lemma_view(*c);
    }
    match c.file_type {
        NodeFileType::Symlink => true,
        NodeFileType::Whiteout => match e {
            Some(e) => e.exists,
            None => false,
        },
        _ => match e {
            Some(e) => {
                let t = NodeFileType::from_kind(e.kind);
                t != c.file_type || t == NodeFileType::Symlink
            },
            None => true,
        },
    }
}

/// The operations that reproduce the real entry `entry` of `path` at the
/// same name below `work`.
pub fn mirror_entry(path: &String, work: &String, entry: &RealEntry) -> (r: Vec<MountOp>)
    ensures
        ops_view(r@) == mirror_ops(path@, work@, *entry),
{
    let src = join_path(path, &entry.name);
    let dst = join_path(work, &entry.name);
    let mut r: Vec<MountOp> = Vec::new();
    match entry.kind {
        EntryKind::File => {
            r.push(MountOp::CreateFile { target: dst.clone() });
            r.push(MountOp::Bind { source: src, target: dst, register_on_failure: false });
        },
        EntryKind::Dir => {
            r.push(MountOp::MirrorDir { path: src, work: dst });
        },
        EntryKind::Symlink => {
            r.push(MountOp::CloneSymlink { source: src, target: dst });
        },
        _ => {},
    }
    assert(ops_view(r@) =~= mirror_ops(path@, work@, *entry));
    r
}

fn mirror_steps(at: &Frame, entry: &RealEntry) -> (r: Vec<Step>)
    ensures
        steps_view(r@) == tag_all(at@, mirror_ops(at.path@, at.work@, *entry)),
{
    let mut ops = mirror_entry(&at.path, &at.work, entry);
    let ghost all = ops_view(ops@);
    let mut r: Vec<Step> = Vec::new();
    while ops.len() > 0
        invariant
            all == mirror_ops(at.path@, at.work@, *entry),
            steps_view(r@) + tag_all(at@, ops_view(ops@)) == tag_all(at@, all),
        decreases ops.len(),
    {
        let ghost before = ops@;
        let op = ops.remove(0);
        let ghost opv = op@;
        let ghost rb = r@;
        let st = tag_step(at, op);
        let ghost stv = st;
        r.push(st);
        proof {
            lemma_steps_push(rb, stv);
        }
        assert(tag_all(at@, ops_view(before)) =~= seq![tag(at@, opv)] + tag_all(at@, ops_view(ops@)));
    }
    assert(steps_view(r@) + tag_all(at@, ops_view(ops@)) =~= steps_view(r@));
    r
}

/// What a directory decides before touching its children.
struct DirPlan {
    /// The directory's position in the real snapshot.
    at_index: Option<usize>,
    /// It opens a shadow of its own.
    tmpfs: bool,
    /// It stands in a shadow, its own or an ancestor's.
    has_tmpfs: bool,
    /// Which children are left out.
    skipped: Vec<bool>,
}

spec fn dir_plan_ok(d: DirPlan, n: NodeView, at: At, snap: Seq<RealDir>) -> bool {
    &&& match d.at_index {
        Some(k) => k < snap.len() && find_real(snap, at.path) == Some(snap[k as int]),
        None => find_real(snap, at.path) is None,
    }
    &&& d.tmpfs == opens_tmpfs(n, at, snap)
    &&& d.has_tmpfs == dir_has_tmpfs(n, at, snap)
    &&& d.skipped@.len() == n.children.len()
    &&& forall|j: int| 0 <= j < n.children.len() ==> d.skipped@[j] == child_skipped(n, at, j, snap)
}

fn decide_dir(n: &Node, at: &Frame, snap: &Vec<RealDir>) -> (r: DirPlan)
    ensures
        dir_plan_ok(r, n@, at@, snap@),
{
    proof {
        lemma_view(*n);
    }
    let at_index = find_real_index(snap, &at.path);
    let mut needs: Vec<bool> = Vec::new();
    let mut any_need = false;
    let mut j: usize = 0;
    while j < n.children.len()
        invariant
            j <= n.children.len(),
            n@.children.len() == n.children.len(),
            match at_index {
                Some(k) => k < snap.len() && find_real(snap@, at.path@) == Some(snap@[k as int]),
                None => find_real(snap@, at.path@) is None,
            },
            needs@.len() == j,
            forall|q: int| 0 <= q < j ==> needs@[q] == child_needs(n@, at@, q, snap@),
            any_need == exists|q: int| 0 <= q < j && child_needs(n@, at@, q, snap@),
        decreases n.children.len() - j,
    {
        let c = &n.children[j];
        proof {
            lemma_view(*c);
            assert(n@.children[j as int] == c@);
        }
        let e = real_child_of(snap, &at.path, at_index, &c.name);
        let x = needs_shadow_of(c, e);
        assert(x == child_needs(n@, at@, j as int, snap@));
        needs.push(x);
        any_need = any_need || x;
        j += 1;
        proof {
            if x {
                assert(0 <= j - 1 < j && child_needs(n@, at@, j - 1, snap@));
            }
        }
    }
    let tmpfs = !at.has_tmpfs && n.module_source.is_some() && (n.replace || any_need);
    let has_tmpfs = at.has_tmpfs || tmpfs;
    let mut skipped: Vec<bool> = Vec::new();
    let mut j: usize = 0;
    while j < n.children.len()
        invariant
            j <= n.children.len(),
            n@.children.len() == n.children.len(),
            needs@.len() == n.children.len(),
            forall|q: int| 0 <= q < n.children.len() ==> needs@[q] == child_needs(n@, at@, q, snap@),
            skipped@.len() == j,
            forall|q: int| 0 <= q < j ==> skipped@[q] == child_skipped(n@, at@, q, snap@),
        decreases n.children.len() - j,
    {
        proof {
            lemma_view(n.children@[j as int]);
        }
        skipped.push(n.children[j].skip || (!at.has_tmpfs && n.module_source.is_none() && needs[j]));
        j += 1;
    }
    DirPlan { at_index, tmpfs, has_tmpfs, skipped }
}

fn child_frame(n: &Node, at: &Frame, j: usize, has_tmpfs: bool) -> (r: Frame)
    requires
        j < n.children.len(),
    ensures
        r@ == (At {
            path: joined(at.path@, n@.children[j as int].name),
            work: joined(at.work@, n@.children[j as int].name),
            has_tmpfs,
            unit: if has_tmpfs { at.unit@ } else { joined(at.path@, n@.children[j as int].name) },
            fatal: has_tmpfs && at.fatal,
        }),
{
    proof {
        lemma_view(*n);
        lemma_view(n.children@[j as int]);
    }
    let path = join_path(&at.path, &n.children[j].name);
    let work = join_path(&at.work, &n.children[j].name);
    let unit = if has_tmpfs { at.unit.clone() } else { path.clone() };
    Frame { path, work, has_tmpfs, unit, fatal: has_tmpfs && at.fatal }
}

proof fn lemma_taken_step(n: NodeView, es: Seq<RealEntry>, i: int, j: int)
    requires
        0 <= i < es.len(),
    ensures
        taken_before(n, es, i + 1, j) == (taken_before(n, es, i, j) || child_index(n.children, es[i].name@) == Some(j)),
{
    if child_index(n.children, es[i].name@) == Some(j) {
        assert(0 <= i < i + 1 && child_index(n.children, es[i].name@) == Some(j));
    }
    if taken_before(n, es, i + 1, j) {
        let k = choose|k: int| 0 <= k < i + 1 && child_index(n.children, (#[trigger] es[k]).name@) == Some(j);
        if k < i {
            assert(taken_before(n, es, i, j));
        }
    }
}

/// The steps for the real entries of a directory that walks its listing.
fn plan_listed(n: &Node, at: &Frame, snap: &Vec<RealDir>, umount: bool, d: &DirPlan, es: &Vec<RealEntry>) -> (r: (Vec<Step>, Vec<bool>))
    requires
        dir_plan_ok(*d, n@, at@, snap@),
        real_listing(snap@, at.path@) == Some(es@),
    ensures
        steps_view(r.0@) == listed_prefix(n@, at@, snap@, umount, es.len() as int),
        r.1@.len() == n.children.len(),
        forall|j: int| 0 <= j < n.children.len() ==> r.1@[j] == taken_before(n@, es@, es.len() as int, j),
    decreases n, 1int,
{
    proof {
        lemma_view(*n);
    }
    let mut out: Vec<Step> = Vec::new();
    let mut taken: Vec<bool> = vec![false; n.children.len()];
    let mut i: usize = 0;
    while i < es.len()
        invariant
            i <= es.len(),
            dir_plan_ok(*d, n@, at@, snap@),
            real_listing(snap@, at.path@) == Some(es@),
            n@.children.len() == n.children.len(),
            steps_view(out@) == listed_prefix(n@, at@, snap@, umount, i as int),
            taken@.len() == n.children.len(),
            forall|j: int| 0 <= j < n.children.len() ==> taken@[j] == taken_before(n@, es@, i as int, j),
        decreases es.len() - i,
    {
        let e = &es[i];
        let ghost before = out@;
        let ghost taken0 = taken@;
        let part: Vec<Step>;
        match n.find_child(&e.name) {
            Some(j) => {
                if taken[j] {
                    part = if d.has_tmpfs { mirror_steps(at, e) } else { Vec::new() };
                } else {
                    taken.set(j, true);
                    if !d.skipped[j] {
                        let cf = child_frame(n, at, j, d.has_tmpfs);
                        proof {
                            assert(cf@ == child_at(n@, at@, j as int, snap@));
                        }
                        part = plan_node(&n.children[j], cf, snap, umount);
                    } else {
                        part = Vec::new();
                    }
                }
            },
            None => {
                part = if d.has_tmpfs { mirror_steps(at, e) } else { Vec::new() };
            },
        }
        proof {
            assert(steps_view(part@) == listed_steps_at(n@, at@, snap@, umount, i as int)) by {
                assert(steps_view(seq![]) =~= seq![]);
            }
            assert forall|j: int| 0 <= j < n.children.len() implies taken@[j] == taken_before(n@, es@, i + 1, j) by {
                lemma_taken_step(n@, es@, i as int, j);
            }
        }
        let mut part = part;
        let ghost pv = part@;
        out.append(&mut part);
        proof {
            lemma_steps_add(before, pv);
        }
        i += 1;
    }
    (out, taken)
}

/// The steps for the children that no real entry took.
fn plan_rest(n: &Node, at: &Frame, snap: &Vec<RealDir>, umount: bool, d: &DirPlan, taken: &Vec<bool>) -> (r: Vec<Step>)
    requires
        dir_plan_ok(*d, n@, at@, snap@),
        taken@.len() == n.children.len(),
        forall|j: int| 0 <= j < n.children.len() ==> taken@[j] == consumed(n@, at@, j, snap@),
    ensures
        steps_view(r@) == rest_prefix(n@, at@, snap@, umount, n.children.len() as int),
    decreases n, 1int,
{
    proof {
        lemma_view(*n);
    }
    let mut out: Vec<Step> = Vec::new();
    let mut j: usize = 0;
    while j < n.children.len()
        invariant
            j <= n.children.len(),
            dir_plan_ok(*d, n@, at@, snap@),
            taken@.len() == n.children.len(),
            forall|q: int| 0 <= q < n.children.len() ==> taken@[q] == consumed(n@, at@, q, snap@),
            n@.children.len() == n.children.len(),
            steps_view(out@) == rest_prefix(n@, at@, snap@, umount, j as int),
        decreases n.children.len() - j,
    {
        let ghost before = out@;
        let part: Vec<Step>;
        if !taken[j] && !d.skipped[j] {
            let cf = child_frame(n, at, j, d.has_tmpfs);
            part = plan_node(&n.children[j], cf, snap, umount);
        } else {
            part = Vec::new();
        }
        proof {
            assert(steps_view(part@) == rest_steps_at(n@, at@, snap@, umount, j as int)) by {
                assert(steps_view(seq![]) =~= seq![]);
            }
        }
        let mut part = part;
        let ghost pv = part@;
        out.append(&mut part);
        proof {
            lemma_steps_add(before, pv);
        }
        j += 1;
    }
    out
}

fn push_step(out: &mut Vec<Step>, at: &Frame, op: MountOp)
    ensures
        steps_view(final(out)@) == steps_view(old(out)@).push(tag(at@, op@)),
{
    let ghost before = out@;
    let st = tag_step(at, op);
    let ghost stv = st;
    out.push(st);
    proof {
        lemma_steps_push(before, stv);
    }
}

/// The shadow steps of a directory, or the failure of a shadowed directory
/// that has nothing to copy its attributes from.
fn plan_shadow(n: &Node, at: &Frame, snap: &Vec<RealDir>, d: &DirPlan) -> (r: (Vec<Step>, bool))
    requires
        n.file_type == NodeFileType::Directory,
        dir_plan_ok(*d, n@, at@, snap@),
    ensures
        r.1 == !(dir_has_tmpfs(n@, at@, snap@) && !real_exists(snap@, at.path@) && n@.module_source is None),
        r.1 ==> steps_view(r.0@) == shadow_steps(n@, at@, snap@),
        !r.1 ==> steps_view(r.0@) == node_steps(n@, at@, snap@, false) && steps_view(r.0@) == node_steps(n@, at@, snap@, true),
{
    proof {
        lemma_view(*n);
    }
    let exists = match d.at_index {
        Some(k) => snap[k].exists,
        None => false,
    };
    let mut out: Vec<Step> = Vec::new();
    if d.has_tmpfs {
        if exists {
            push_step(&mut out, at, MountOp::MakeShadowDir { work: at.work.clone(), source: at.path.clone() });
        } else {
            match &n.module_source {
                Some(m) => {
                    push_step(&mut out, at, MountOp::MakeShadowDir { work: at.work.clone(), source: m.clone() });
                },
                None => {
                    push_step(&mut out, at, MountOp::Fail { path: at.path.clone(), reason: FailReason::RootDir });
                    assert(steps_view(out@) =~= node_steps(n@, at@, snap@, false));
                    assert(steps_view(out@) =~= node_steps(n@, at@, snap@, true));
                    return (out, false);
                },
            }
        }
    }
    if d.tmpfs {
        push_step(&mut out, at, MountOp::BindSelf { work: at.work.clone() });
    }
    assert(steps_view(out@) =~= shadow_steps(n@, at@, snap@));
    (out, true)
}

fn plan_finish(out: &mut Vec<Step>, at: &Frame, tmpfs: bool, umount: bool)
    ensures
        steps_view(final(out)@) == steps_view(old(out)@) + if tmpfs {
            seq![
                tag(at@, OpView::RemountReadOnly { target: at.work@ }),
                tag(at@, OpView::MoveMount { from: at.work@, to: at.path@ }),
                tag(at@, OpView::MakePrivate { target: at.path@ }),
            ] + if umount {
                seq![tag(at@, OpView::RegisterUnmountable { target: at.path@ })]
            } else {
                seq![]
            }
        } else {
            seq![]
        },
{
    let ghost start = steps_view(out@);
    if tmpfs {
        push_step(out, at, MountOp::RemountReadOnly { target: at.work.clone() });
        push_step(out, at, MountOp::MoveMount { from: at.work.clone(), to: at.path.clone() });
        push_step(out, at, MountOp::MakePrivate { target: at.path.clone() });
        if umount {
            push_step(out, at, MountOp::RegisterUnmountable { target: at.path.clone() });
        }
    }
    assert(steps_view(out@) =~= start + if tmpfs {
        seq![
            tag(at@, OpView::RemountReadOnly { target: at.work@ }),
            tag(at@, OpView::MoveMount { from: at.work@, to: at.path@ }),
            tag(at@, OpView::MakePrivate { target: at.path@ }),
        ] + if umount {
            seq![tag(at@, OpView::RegisterUnmountable { target: at.path@ })]
        } else {
            seq![]
        }
    } else {
        seq![]
    });
}

fn plan_dir(n: &Node, at: &Frame, snap: &Vec<RealDir>, umount: bool) -> (r: Vec<Step>)
    requires
        n.file_type == NodeFileType::Directory,
    ensures
        steps_view(r@) == node_steps(n@, at@, snap@, umount),
    decreases n, 2int,
{
    proof {
        lemma_view(*n);
    }
    let d = decide_dir(n, at, snap);
    let (mut out, ok) = plan_shadow(n, at, snap, &d);
    if !ok {
        return out;
    }
    let exists = match d.at_index {
        Some(k) => snap[k].exists,
        None => false,
    };
    let ghost head = out@;
    let walks = exists && !n.replace;
    let mut taken: Vec<bool>;
    if walks {
        let listing = match d.at_index {
            Some(k) => &snap[k].entries,
            None => &None,
        };
        match listing {
            None => {
                push_step(&mut out, at, MountOp::Fail { path: at.path.clone(), reason: FailReason::Unreadable });
                return out;
            },
            Some(es) => {
                let (mut steps, t) = plan_listed(n, at, snap, umount, &d, es);
                let ghost sv = steps@;
                out.append(&mut steps);
                proof {
                    lemma_steps_add(head, sv);
                }
                taken = t;
            },
        }
    } else {
        taken = vec![false; n.children.len()];
    }
    let ghost listed = steps_view(out@);
    assert(listed == shadow_steps(n@, at@, snap@) + listed_steps(n@, at@, snap@, umount));
    if n.replace && n.module_source.is_none() {
        push_step(&mut out, at, MountOp::Fail { path: at.path.clone(), reason: FailReason::ReplacedRoot });
        return out;
    }
    let ghost mid = out@;
    let mut rest = plan_rest(n, at, snap, umount, &d, &taken);
    let ghost rv = rest@;
    out.append(&mut rest);
    proof {
        lemma_steps_add(mid, rv);
    }
    plan_finish(&mut out, at, d.tmpfs, umount);
    out
}

fn plan_node(n: &Node, at: Frame, snap: &Vec<RealDir>, umount: bool) -> (r: Vec<Step>)
    ensures
        steps_view(r@) == node_steps(n@, at@, snap@, umount),
    decreases n, 3int,
{
    proof {
        lemma_view(*n);
    }
    let mut out: Vec<Step> = Vec::new();
    match n.file_type {
        NodeFileType::Whiteout => {},
        NodeFileType::Symlink => match &n.module_source {
            Some(m) => {
                push_step(&mut out, &at, MountOp::CloneSymlink { source: m.clone(), target: at.work.clone() });
            },
            None => {
                push_step(&mut out, &at, MountOp::Fail { path: at.path.clone(), reason: FailReason::RootSymlink });
            },
        },
        NodeFileType::RegularFile => {
            if at.has_tmpfs {
                push_step(&mut out, &at, MountOp::CreateFile { target: at.work.clone() });
            }
            match &n.module_source {
                Some(m) => {
                    let target = if at.has_tmpfs { at.work.clone() } else { at.path.clone() };
                    push_step(&mut out, &at, MountOp::Bind { source: m.clone(), target: target.clone(), register_on_failure: umount });
                    push_step(&mut out, &at, MountOp::RemountReadOnly { target });
                },
                None => {
                    push_step(&mut out, &at, MountOp::Fail { path: at.path.clone(), reason: FailReason::RootFile });
                },
            }
        },
        NodeFileType::Directory => {
            return plan_dir(n, &at, snap, umount);
        },
    }
    assert(steps_view(out@) =~= node_steps(n@, at@, snap@, umount));
    out
}

/// Carrying out a list of steps: the unit being abandoned after a failure,
/// if any.
#[derive(Debug)]
pub struct RunState {
    pub abandoned: Option<String>,
}

/// What a failed step leads to.
#[derive(PartialEq, Eq, Structural, Clone, Copy, Debug)]
pub enum Failure {
    /// A best-effort step: report it and go on.
    Reported,
    /// Skip the remaining steps of the step's unit.
    AbandonUnit,
    /// End the run with the error.
    EndRun,
}

impl RunState {
    pub fn new() -> (r: RunState)
        ensures
            r.abandoned is None,
    {
        RunState { abandoned: None }
    }

    /// Whether `step` is carried out: not while its unit is abandoned. A step
    /// of another unit ends the abandonment.
    pub fn should_run(&mut self, step: &Step) -> (r: bool)
        ensures
            r == !(opt_view(old(self).abandoned) == Some(step.unit@)),
            final(self).abandoned == (if r { None } else { old(self).abandoned }),
    {
        let skip = match &self.abandoned {
            Some(u) => *u == step.unit,
            None => false,
        };
        if !skip {
            self.abandoned = None;
        }
        !skip
    }

    /// Records that `step` failed.
    pub fn fail(&mut self, step: &Step) -> (r: Failure)
        ensures
            r == (if step.op.spec_best_effort() {
                Failure::Reported
            } else if step.fatal {
                Failure::EndRun
            } else {
                Failure::AbandonUnit
            }),
            r == Failure::AbandonUnit ==> final(self).abandoned == Some(step.unit),
            r != Failure::AbandonUnit ==> final(self).abandoned == old(self).abandoned,
    {
        if step.op.best_effort() {
            Failure::Reported
        } else if step.fatal {
            Failure::EndRun
        } else {
            self.abandoned = Some(step.unit.clone());
            Failure::AbandonUnit
        }
    }
}

/// Where the walk starts: the root's real path below `/`, its scratch path
/// below `work_dir`, outside any shadow, in the one unit whose failure ends
/// the run.
pub open spec fn root_at(name: Seq<char>, work_dir: Seq<char>) -> At {
    At {
        path: joined(seq!['/'], name),
        work: joined(work_dir, name),
        has_tmpfs: false,
        unit: joined(seq!['/'], name),
        fatal: true,
    }
}

/// The steps that lay the merged tree over `/`, using `work_dir` (a private
/// tmpfs) as the scratch area; none when there is no tree. `snap` holds what
/// the running system shows at the paths of the tree's directories.
pub fn magic_mount(tree: &Option<Node>, work_dir: &String, snap: &Vec<RealDir>, umount: bool) -> (r: Vec<Step>)
    ensures
        match tree {
            Some(n) => steps_view(r@) == node_steps(n@, root_at(n@.name, work_dir@), snap@, umount),
            None => r@.len() == 0,
        },
{
    match tree {
        Some(n) => {
            let slash = String::from_str("/");
            proof {
                reveal_strlit("/");
                assert(slash@ =~= seq!['/']);
                lemma_view(*n);
            }
            let path = join_path(&slash, &n.name);
            let work = join_path(work_dir, &n.name);
            let unit = path.clone();
            plan_node(n, Frame { path, work, has_tmpfs: false, unit, fatal: true }, snap, umount)
        },
        None => Vec::new(),
    }
}

proof fn lemma_rest_prefix_parts(n: NodeView, at: At, snap: Seq<RealDir>, umount: bool, count: int, j: int)
    requires
        0 <= j < count,
    ensures
        exists|a: Seq<StepView>, b: Seq<StepView>| rest_prefix(n, at, snap, umount, count) == a + rest_steps_at(n, at, snap, umount, j) + b,
    decreases count,
{
    if j == count - 1 {
        let a = rest_prefix(n, at, snap, umount, count - 1);
        let c = rest_steps_at(n, at, snap, umount, j);
        assert(rest_prefix(n, at, snap, umount, count) == a + c + seq![]);
    } else {
        lemma_rest_prefix_parts(n, at, snap, umount, count - 1, j);
        let (a, b) = choose|a: Seq<StepView>, b: Seq<StepView>|
            rest_prefix(n, at, snap, umount, count - 1) == a + rest_steps_at(n, at, snap, umount, j) + b;
        let last = rest_steps_at(n, at, snap, umount, count - 1);
        assert(rest_prefix(n, at, snap, umount, count) == a + rest_steps_at(n, at, snap, umount, j) + (b + last));
    }
}

/// An opaque directory with a module behind it never walks its real
/// listing, so no real entry below it is mirrored; outside a shadow it opens
/// one of its own and moves it over the real path; and each of its children
/// not flagged to skip, whichever module brought it, is laid out in it.
pub proof fn lemma_opaque_hides_real(n: NodeView, at: At, snap: Seq<RealDir>, umount: bool)
    requires
        n.file_type == NodeFileType::Directory,
        n.replace,
        n.module_source is Some,
    ensures
        listed_steps(n, at, snap, umount) == Seq::<StepView>::empty(),
        !at.has_tmpfs ==> opens_tmpfs(n, at, snap),
        !at.has_tmpfs ==> node_steps(n, at, snap, umount) == shadow_steps(n, at, snap) + rest_steps(
            n,
            at,
            snap,
            umount,
        ) + finish_steps(n, at, snap, umount),
        !at.has_tmpfs ==> finish_steps(n, at, snap, umount).contains(
            tag(at, OpView::MoveMount { from: at.work, to: at.path }),
        ),
        forall|j: int|
            0 <= j < n.children.len() && !n.children[j].skip ==> exists|a: Seq<StepView>, b: Seq<StepView>|
                rest_steps(n, at, snap, umount) == a + node_steps(#[trigger] n.children[j], child_at(n, at, j, snap), snap, umount) + b,
{
    if !at.has_tmpfs {
        let f = finish_steps(n, at, snap, umount);
        assert(f[1] == tag(at, OpView::MoveMount { from: at.work, to: at.path }));
    }
    assert forall|j: int| 0 <= j < n.children.len() && !n.children[j].skip implies exists|a: Seq<StepView>, b: Seq<StepView>|
        rest_steps(n, at, snap, umount) == a + node_steps(#[trigger] n.children[j], child_at(n, at, j, snap), snap, umount) + b by {
        assert(!consumed(n, at, j, snap));
        assert(!child_skipped(n, at, j, snap));
        assert(rest_steps_at(n, at, snap, umount, j) == node_steps(n.children[j], child_at(n, at, j, snap), snap, umount));
        lemma_rest_prefix_parts(n, at, snap, umount, n.children.len() as int, j);
        let (a, b) = choose|a: Seq<StepView>, b: Seq<StepView>|
            rest_prefix(n, at, snap, umount, n.children.len() as int) == a + rest_steps_at(n, at, snap, umount, j) + b;
        assert(rest_steps(n, at, snap, umount) == a + node_steps(n.children[j], child_at(n, at, j, snap), snap, umount) + b);
    }
}

/// A whiteout adds no step of its own.
pub proof fn lemma_whiteout_no_steps(n: NodeView, at: At, snap: Seq<RealDir>, umount: bool)
    requires
        n.file_type == NodeFileType::Whiteout,
    ensures
        node_steps(n, at, snap, umount) == Seq::<StepView>::empty(),
{
}

/// A whiteout over a real entry makes its directory (outside any shadow,
/// with a module behind it) open a shadow, and that entry is then neither
/// mirrored nor mounted: it is absent from the view.
pub proof fn lemma_whiteout_hides_real(n: NodeView, at: At, snap: Seq<RealDir>, umount: bool, j: int, i: int)
    requires
        n.file_type == NodeFileType::Directory,
        !at.has_tmpfs,
        n.module_source is Some,
        0 <= j < n.children.len(),
        n.children[j].file_type == NodeFileType::Whiteout,
        child_index(n.children, n.children[j].name) == Some(j),
        real_listing(snap, at.path) is Some,
        0 <= i < real_listing(snap, at.path)->0.len(),
        real_listing(snap, at.path)->0[i].name@ == n.children[j].name,
        real_listing(snap, at.path)->0[i].exists,
        real_child(snap, at.path, n.children[j].name) == Some(real_listing(snap, at.path)->0[i]),
        !taken_before(n, real_listing(snap, at.path)->0, i, j),
    ensures
        opens_tmpfs(n, at, snap),
        listed_steps_at(n, at, snap, umount, i) == Seq::<StepView>::empty(),
{
    assert(child_needs(n, at, j, snap));
}

/// A whiteout with nothing real under its name asks for no shadow: the
/// directory opens one exactly as it would on account of its other children.
pub proof fn lemma_whiteout_over_nothing(n: NodeView, at: At, snap: Seq<RealDir>, j: int)
    requires
        0 <= j < n.children.len(),
        n.children[j].file_type == NodeFileType::Whiteout,
        match real_child(snap, at.path, n.children[j].name) {
            Some(e) => !e.exists,
            None => true,
        },
    ensures
        !child_needs(n, at, j, snap),
        opens_tmpfs(n, at, snap) == (!at.has_tmpfs && n.module_source is Some && (n.replace || exists|k: int|
            0 <= k < n.children.len() && k != j && child_needs(n, at, k, snap))),
{
}

/// Every step belongs to `unit`, with the given fatality.
pub open spec fn all_in_unit(steps: Seq<StepView>, unit: Seq<char>, fatal: bool) -> bool {
    forall|k: int| 0 <= k < steps.len() ==> (#[trigger] steps[k]).unit == unit && steps[k].fatal == fatal
}

proof fn lemma_unit_add(a: Seq<StepView>, b: Seq<StepView>, unit: Seq<char>, fatal: bool)
    requires
        all_in_unit(a, unit, fatal),
        all_in_unit(b, unit, fatal),
    ensures
        all_in_unit(a + b, unit, fatal),
{
    assert forall|k: int| 0 <= k < (a + b).len() implies (#[trigger] (a + b)[k]).unit == unit && (a + b)[k].fatal == fatal by {
        if k < a.len() {
            assert((a + b)[k] == a[k]);
        } else {
            assert((a + b)[k] == b[k - a.len()]);
        }
    }
}

proof fn lemma_unit_tagged(at: At, ops: Seq<OpView>)
    ensures
        all_in_unit(tag_all(at, ops), at.unit, at.fatal),
{
}

proof fn lemma_unit_node(n: NodeView, at: At, snap: Seq<RealDir>, umount: bool)
    requires
        dir_has_tmpfs(n, at, snap) || at.has_tmpfs,
    ensures
        all_in_unit(node_steps(n, at, snap, umount), at.unit, at.fatal),
    decreases n, 3int, 0int,
{
    if n.file_type == NodeFileType::Directory {
        let has2 = dir_has_tmpfs(n, at, snap);
        if walks_listing(n, at, snap) && real_listing(snap, at.path) is Some {
            let es = real_listing(snap, at.path)->0;
            lemma_unit_listed(n, at, snap, umount, es.len() as int);
        }
        lemma_unit_rest(n, at, snap, umount, n.children.len() as int);
        let sh = shadow_steps(n, at, snap);
        let fin = finish_steps(n, at, snap, umount);
        assert(all_in_unit(sh, at.unit, at.fatal));
        assert(all_in_unit(fin, at.unit, at.fatal));
        lemma_unit_add(sh, listed_steps(n, at, snap, umount), at.unit, at.fatal);
        lemma_unit_add(sh + listed_steps(n, at, snap, umount), rest_steps(n, at, snap, umount), at.unit, at.fatal);
        lemma_unit_add(
            sh + listed_steps(n, at, snap, umount) + rest_steps(n, at, snap, umount),
            fin,
            at.unit,
            at.fatal,
        );
        let f = tag(at, OpView::Fail { path: at.path, reason: FailReason::Unreadable });
        let g = tag(at, OpView::Fail { path: at.path, reason: FailReason::ReplacedRoot });
        lemma_unit_add(sh, seq![f], at.unit, at.fatal);
        lemma_unit_add(sh, seq![g], at.unit, at.fatal);
        assert(sh.push(f) == sh + seq![f]);
        assert(sh.push(g) == sh + seq![g]);
    }
}

proof fn lemma_unit_listed(n: NodeView, at: At, snap: Seq<RealDir>, umount: bool, count: int)
    requires
        dir_has_tmpfs(n, at, snap),
    ensures
        all_in_unit(listed_prefix(n, at, snap, umount, count), at.unit, at.fatal),
    decreases n, 1int, count,
{
    if count > 0 {
        lemma_unit_listed(n, at, snap, umount, count - 1);
        let i = count - 1;
        let es = real_listing(snap, at.path)->0;
        if 0 <= i < es.len() {
            lemma_unit_tagged(at, mirror_ops(at.path, at.work, es[i]));
            match child_index(n.children, es[i].name@) {
                Some(j) => {
                    if !taken_before(n, es, i, j) && 0 <= j < n.children.len() && !child_skipped(n, at, j, snap) {
                        lemma_unit_node(n.children[j], child_at(n, at, j, snap), snap, umount);
                    }
                },
                None => {},
            }
        }
        lemma_unit_add(
            listed_prefix(n, at, snap, umount, count - 1),
            listed_steps_at(n, at, snap, umount, i),
            at.unit,
            at.fatal,
        );
    }
}

proof fn lemma_unit_rest(n: NodeView, at: At, snap: Seq<RealDir>, umount: bool, count: int)
    requires
        dir_has_tmpfs(n, at, snap),
    ensures
        all_in_unit(rest_prefix(n, at, snap, umount, count), at.unit, at.fatal),
    decreases n, 1int, count,
{
    if count > 0 {
        lemma_unit_rest(n, at, snap, umount, count - 1);
        let j = count - 1;
        if 0 <= j < n.children.len() && !consumed(n, at, j, snap) && !child_skipped(n, at, j, snap) {
            lemma_unit_node(n.children[j], child_at(n, at, j, snap), snap, umount);
        }
        lemma_unit_add(
            rest_prefix(n, at, snap, umount, count - 1),
            rest_steps_at(n, at, snap, umount, j),
            at.unit,
            at.fatal,
        );
    }
}

/// A shadow is all or nothing: every step of a directory that opens a
/// shadow, down to the move onto the real path, is in the directory's own
/// unit, so any failure below abandons the shadow before it is moved.
pub proof fn lemma_shadow_is_one_unit(n: NodeView, at: At, snap: Seq<RealDir>, umount: bool)
    requires
        n.file_type == NodeFileType::Directory,
        opens_tmpfs(n, at, snap),
    ensures
        all_in_unit(node_steps(n, at, snap, umount), at.unit, at.fatal),
{
    lemma_unit_node(n, at, snap, umount);
}

} // verus!
