//! The tree builder: which modules take part, and how their partitions fold
//! into one tree with `system` and the promoted partitions under the root.

use vstd::prelude::*;
use crate::prop::{prop_ids_valid, prop_ids_ok, chars_of};
use crate::node::{
    merge_dir, ModuleDir, Node, NodeView, BuildError, NodeFileType, empty_dir, child_index, with_children,
    lemma_view, unique_names, names_contain, lemma_child_index_named, wf, BuildErrorView,
};

verus! {

/// The metadata file of a module.
#[derive(Debug)]
pub enum PropFile {
    Missing,
    Unreadable,
    Text(String),
}

/// One content directory of a module, named after the partition it targets.
#[derive(Debug)]
pub struct PartitionDir {
    pub name: String,
    pub exists: bool,
    pub is_dir: bool,
    pub dir: ModuleDir,
}

/// One entry of the module root, with what the builder reads of it.
#[derive(Debug)]
pub struct ModuleCandidate {
    pub name: String,
    pub is_dir: bool,
    pub prop: PropFile,
    pub disabled: bool,
    pub removed: bool,
    pub skip_mount: bool,
    /// The content directories looked up for the searched partitions; a
    /// partition without an entry here is taken as absent.
    pub partitions: Vec<PartitionDir>,
}

/// How a partition is laid out on the running system.
#[derive(Debug)]
pub struct PartitionLayout {
    pub name: String,
    /// `/<name>` is a directory.
    pub root_is_dir: bool,
    /// `/system/<name>` is a symlink.
    pub system_is_symlink: bool,
}

pub open spec fn system_name() -> Seq<char> {
    seq!['s', 'y', 's', 't', 'e', 'm']
}

pub open spec fn views(v: Seq<String>) -> Seq<Seq<char>> {
    v.map_values(|s: String| s@)
}

/// The partitions searched in each module: `system`, then each extra
/// partition in order, each name once.
pub open spec fn search_partitions(extra: Seq<String>) -> Seq<Seq<char>>
    decreases extra.len(),
{
    if extra.len() == 0 {
        seq![system_name()]
    } else {
        let p = search_partitions(extra.drop_last());
        if p.contains(extra.last()@) {
            p
        } else {
            p.push(extra.last()@)
        }
    }
}

/// The content directory that a module holds for a partition.
pub open spec fn find_partition(ps: Seq<PartitionDir>, name: Seq<char>) -> Option<PartitionDir>
    decreases ps.len(),
{
    if ps.len() == 0 {
        None
    } else if ps[0].name@ == name {
        Some(ps[0])
    } else {
        find_partition(ps.drop_first(), name)
    }
}

pub open spec fn partition_is_dir(m: ModuleCandidate, name: Seq<char>) -> bool {
    match find_partition(m.partitions@, name) {
        Some(p) => p.is_dir,
        None => false,
    }
}

/// Folds each existing content directory of `m` into `system`, partitions in
/// order; whether any fold brought something.
pub open spec fn fold_partitions(system: NodeView, m: ModuleCandidate, parts: Seq<Seq<char>>) -> Result<(NodeView, bool), BuildErrorView>
    decreases parts.len(),
{
    if parts.len() == 0 {
        Ok((system, false))
    } else {
        match fold_partitions(system, m, parts.drop_last()) {
            Ok((s1, h1)) => match find_partition(m.partitions@, parts.last()) {
                Some(p) => if p.exists {
                    match merge_dir(s1, p.dir) {
                        Ok((s2, h2)) => Ok((s2, h1 || h2)),
                        Err(err) => Err(err),
                    }
                } else {
                    Ok((s1, h1))
                },
                None => Ok((s1, h1)),
            },
            Err(err) => Err(err),
        }
    }
}

pub open spec fn has_marker(m: ModuleCandidate) -> bool {
    m.disabled || m.removed || m.skip_mount
}

/// What one entry of the module root does to the `system` tree. Entries that
/// are not directories, lack metadata, carry a marker or have no content
/// directory leave it as it is; unreadable metadata or an invalid id fail
/// the build.
pub open spec fn fold_module(system: NodeView, m: ModuleCandidate, parts: Seq<Seq<char>>) -> Result<(NodeView, bool), BuildErrorView> {
    if !m.is_dir {
        Ok((system, false))
    } else {
        match m.prop {
            PropFile::Missing => Ok((system, false)),
            PropFile::Unreadable => Err(BuildErrorView::ReadProp { module: m.name@ }),
            PropFile::Text(t) => if !prop_ids_valid(t@) {
                Err(BuildErrorView::InvalidModuleId { id: m.name@ })
            } else if has_marker(m) {
                Ok((system, false))
            } else if !(exists|i: int| 0 <= i < parts.len() && partition_is_dir(m, #[trigger] parts[i])) {
                Ok((system, false))
            } else {
                fold_partitions(system, m, parts)
            },
        }
    }
}

pub open spec fn fold_modules(system: NodeView, ms: Seq<ModuleCandidate>, parts: Seq<Seq<char>>) -> Result<(NodeView, bool), BuildErrorView>
    decreases ms.len(),
{
    if ms.len() == 0 {
        Ok((system, false))
    } else {
        match fold_modules(system, ms.drop_last(), parts) {
            Ok((s1, h1)) => match fold_module(s1, ms.last(), parts) {
                Ok((s2, h2)) => Ok((s2, h1 || h2)),
                Err(err) => Err(err),
            },
            Err(err) => Err(err),
        }
    }
}

pub open spec fn builtin_partitions() -> Seq<(Seq<char>, bool)> {
    seq![
        (seq!['v', 'e', 'n', 'd', 'o', 'r'], true),
        (seq!['s', 'y', 's', 't', 'e', 'm', '_', 'e', 'x', 't'], true),
        (seq!['p', 'r', 'o', 'd', 'u', 'c', 't'], true),
        (seq!['o', 'd', 'm'], false),
    ]
}

pub open spec fn is_builtin(name: Seq<char>) -> bool {
    exists|i: int| 0 <= i < 4 && (#[trigger] builtin_partitions()[i]).0 == name
}

/// The extra partitions that may be promoted: neither built in nor `system`.
pub open spec fn extra_candidates(extra: Seq<String>) -> Seq<(Seq<char>, bool)>
    decreases extra.len(),
{
    if extra.len() == 0 {
        seq![]
    } else {
        let c = extra_candidates(extra.drop_last());
        let p = extra.last()@;
        if is_builtin(p) || p == system_name() {
            c
        } else {
            c.push((p, false))
        }
    }
}

/// Each candidate with whether `/system/<name>` must be a symlink.
pub open spec fn promotion_candidates(extra: Seq<String>) -> Seq<(Seq<char>, bool)> {
    builtin_partitions() + extra_candidates(extra)
}

pub open spec fn find_layout(ls: Seq<PartitionLayout>, name: Seq<char>) -> Option<PartitionLayout>
    decreases ls.len(),
{
    if ls.len() == 0 {
        None
    } else if ls[0].name@ == name {
        Some(ls[0])
    } else {
        find_layout(ls.drop_first(), name)
    }
}

/// `/<name>` is a directory, and `/system/<name>` a symlink where required.
pub open spec fn may_promote(ls: Seq<PartitionLayout>, name: Seq<char>, require_symlink: bool) -> bool {
    match find_layout(ls, name) {
        Some(l) => l.root_is_dir && (!require_symlink || l.system_is_symlink),
        None => false,
    }
}

/// Moves each candidate that may be promoted from `system` to the root.
pub open spec fn promote_all(
    root: NodeView,
    system: NodeView,
    cands: Seq<(Seq<char>, bool)>,
    ls: Seq<PartitionLayout>,
) -> (NodeView, NodeView)
    decreases cands.len(),
{
    if cands.len() == 0 {
        (root, system)
    } else {
        let (r1, s1) = promote_all(root, system, cands.drop_last(), ls);
        let (name, req) = cands.last();
        match child_index(s1.children, name) {
            Some(j) => if may_promote(ls, name, req) {
                (
                    with_children(r1, r1.children.push(s1.children[j])),
                    with_children(s1, s1.children.remove(j)),
                )
            } else {
                (r1, s1)
            },
            None => (r1, s1),
        }
    }
}

/// The merged tree, `None` when nothing was contributed; or why building
/// fails.
pub open spec fn build_tree(
    modules: Seq<ModuleCandidate>,
    extra: Seq<String>,
    ls: Seq<PartitionLayout>,
) -> Result<Option<NodeView>, BuildErrorView> {
    match fold_modules(empty_dir(system_name()), modules, search_partitions(extra)) {
        Ok((sys, contributed)) => if !contributed {
            Ok(None)
        } else {
            let (root, sys2) = promote_all(empty_dir(seq![]), sys, promotion_candidates(extra), ls);
            Ok(Some(with_children(root, root.children.push(sys2))))
        },
        Err(err) => Err(err),
    }
}

fn contains_name(v: &Vec<String>, name: &String) -> (r: bool)
    ensures
        r == views(v@).contains(name@),
{
    let mut i: usize = 0;
    while i < v.len()
        invariant
            i <= v.len(),
            forall|k: int| 0 <= k < i ==> v@[k]@ != name@,
        decreases v.len() - i,
    {
        if v[i] == *name {
            assert(views(v@)[i as int] == name@);
            return true;
        }
        i += 1;
    }
    assert forall|k: int| 0 <= k < views(v@).len() implies views(v@)[k] != name@ by {
        assert(views(v@)[k] == v@[k]@);
    }
    false
}

pub fn partition_names(extra_partitions: &Vec<String>) -> (r: Vec<String>)
    ensures
        views(r@) == search_partitions(extra_partitions@),
{
    let mut r: Vec<String> = Vec::new();
    r.push(String::from_str("system"));
    proof {
        reveal_strlit("system");
        assert(r@[0]@ =~= system_name());
        assert(views(r@) =~= search_partitions(extra_partitions@.take(0)));
    }
    let mut i: usize = 0;
    while i < extra_partitions.len()
        invariant
            i <= extra_partitions.len(),
            views(r@) == search_partitions(extra_partitions@.take(i as int)),
        decreases extra_partitions.len() - i,
    {
        let p = &extra_partitions[i];
        proof {
            assert(extra_partitions@.take(i + 1).drop_last() =~= extra_partitions@.take(i as int));
        }
        if !contains_name(&r, p) {
            r.push(p.clone());
            assert(views(r@) =~= views(r@).drop_last().push(p@));
            assert(views(r@).drop_last() =~= search_partitions(extra_partitions@.take(i as int)));
        }
        i += 1;
    }
    assert(extra_partitions@.take(extra_partitions.len() as int) =~= extra_partitions@);
    r
}

pub(crate) fn find_partition_index(ps: &Vec<PartitionDir>, name: &String) -> (r: Option<usize>)
    ensures
        match r {
            Some(j) => j < ps.len() && find_partition(ps@, name@) == Some(ps@[j as int]),
            None => find_partition(ps@, name@) is None,
        },
{
    let mut j: usize = 0;
    assert(ps@.skip(0) =~= ps@);
    while j < ps.len()
        invariant
            j <= ps.len(),
            find_partition(ps@, name@) == find_partition(ps@.skip(j as int), name@),
        decreases ps.len() - j,
    {
        assert(ps@.skip(j as int).drop_first() =~= ps@.skip(j + 1));
        if ps[j].name == *name {
            return Some(j);
        }
        j += 1;
    }
    None
}

fn find_layout_index(ls: &Vec<PartitionLayout>, name: &String) -> (r: Option<usize>)
    ensures
        match r {
            Some(j) => j < ls.len() && find_layout(ls@, name@) == Some(ls@[j as int]),
            None => find_layout(ls@, name@) is None,
        },
{
    let mut j: usize = 0;
    assert(ls@.skip(0) =~= ls@);
    while j < ls.len()
        invariant
            j <= ls.len(),
            find_layout(ls@, name@) == find_layout(ls@.skip(j as int), name@),
        decreases ls.len() - j,
    {
        assert(ls@.skip(j as int).drop_first() =~= ls@.skip(j + 1));
        if ls[j].name == *name {
            return Some(j);
        }
        j += 1;
    }
    None
}

proof fn lemma_fold_partitions_prefix_err(system: NodeView, m: ModuleCandidate, parts: Seq<Seq<char>>, k: int)
    requires
        0 <= k <= parts.len(),
        fold_partitions(system, m, parts.take(k)) is Err,
    ensures
        fold_partitions(system, m, parts) == fold_partitions(system, m, parts.take(k)),
    decreases parts.len(),
{
    if k == parts.len() {
        assert(parts.take(k) =~= parts);
    } else {
        assert(parts.drop_last().take(k) =~= parts.take(k));
        lemma_fold_partitions_prefix_err(system, m, parts.drop_last(), k);
    }
}

proof fn lemma_fold_modules_prefix_err(system: NodeView, ms: Seq<ModuleCandidate>, parts: Seq<Seq<char>>, k: int)
    requires
        0 <= k <= ms.len(),
        fold_modules(system, ms.take(k), parts) is Err,
    ensures
        fold_modules(system, ms, parts) == fold_modules(system, ms.take(k), parts),
    decreases ms.len(),
{
    if k == ms.len() {
        assert(ms.take(k) =~= ms);
    } else {
        assert(ms.drop_last().take(k) =~= ms.take(k));
        lemma_fold_modules_prefix_err(system, ms.drop_last(), parts, k);
    }
}

fn collect_partitions(system: &mut Node, m: &ModuleCandidate, parts: &Vec<String>) -> (r: Result<bool, BuildError>)
    requires
        wf(old(system)@),
        old(system).file_type == NodeFileType::Directory,
    ensures
        r is Ok ==> wf(final(system)@) && final(system).file_type == NodeFileType::Directory && final(system)@.name
            == old(system)@.name,
        match fold_partitions(old(system)@, *m, views(parts@)) {
            Ok((n, h)) => r == Ok::<bool, BuildError>(h) && final(system)@ == n,
            Err(e) => r is Err && r->Err_0@ == e,
        },
{
    let ghost start = system@;
    let mut any = false;
    let mut i: usize = 0;
    while i < parts.len()
        invariant
            i <= parts.len(),
            start == old(system)@,
            fold_partitions(start, *m, views(parts@).take(i as int)) == Ok::<(NodeView, bool), BuildErrorView>((system@, any)),
            wf(system@),
            system.file_type == NodeFileType::Directory,
            system@.name == start.name,
        decreases parts.len() - i,
    {
        proof {
            assert(views(parts@).take(i + 1).drop_last() =~= views(parts@).take(i as int));
            assert(views(parts@).take(i + 1).last() == parts@[i as int]@);
        }
        match find_partition_index(&m.partitions, &parts[i]) {
            Some(j) => {
                let p = &m.partitions[j];
                if p.exists {
                    match system.collect_module_files(&p.dir) {
                        Ok(h) => {
                            proof {
                                lemma_view(*system);
                            }
                            any = any || h;
                        },
                        Err(e) => {
                            proof {
                                lemma_fold_partitions_prefix_err(start, *m, views(parts@), i + 1);
                            }
                            return Err(e);
                        },
                    }
                }
            },
            None => {},
        }
        i += 1;
    }
    assert(views(parts@).take(parts.len() as int) =~= views(parts@));
    Ok(any)
}

fn any_partition_dir(m: &ModuleCandidate, parts: &Vec<String>) -> (r: bool)
    ensures
        r == exists|i: int| 0 <= i < views(parts@).len() && partition_is_dir(*m, #[trigger] views(parts@)[i]),
{
    let mut i: usize = 0;
    while i < parts.len()
        invariant
            i <= parts.len(),
            forall|k: int| 0 <= k < i ==> !partition_is_dir(*m, #[trigger] views(parts@)[k]),
        decreases parts.len() - i,
    {
        assert(views(parts@)[i as int] == parts@[i as int]@);
        match find_partition_index(&m.partitions, &parts[i]) {
            Some(j) => {
                if m.partitions[j].is_dir {
                    return true;
                }
            },
            None => {},
        }
        i += 1;
    }
    false
}

fn collect_module(system: &mut Node, m: &ModuleCandidate, parts: &Vec<String>) -> (r: Result<bool, BuildError>)
    requires
        wf(old(system)@),
        old(system).file_type == NodeFileType::Directory,
    ensures
        r is Ok ==> wf(final(system)@) && final(system).file_type == NodeFileType::Directory && final(system)@.name
            == old(system)@.name,
        match fold_module(old(system)@, *m, views(parts@)) {
            Ok((n, h)) => r == Ok::<bool, BuildError>(h) && final(system)@ == n,
            Err(e) => r is Err && r->Err_0@ == e,
        },
{
    if !m.is_dir {
        return Ok(false);
    }
    let text = match &m.prop {
        PropFile::Missing => {
            return Ok(false);
        },
        PropFile::Unreadable => {
            return Err(BuildError::ReadProp { module: m.name.clone() });
        },
        PropFile::Text(t) => t,
    };
    if !prop_ids_ok(text.as_str()) {
        return Err(BuildError::InvalidModuleId { id: m.name.clone() });
    }
    if m.disabled || m.removed || m.skip_mount {
        return Ok(false);
    }
    if !any_partition_dir(m, parts) {
        return Ok(false);
    }
    collect_partitions(system, m, parts)
}

fn builtin_list() -> (r: Vec<(String, bool)>)
    ensures
        r@.len() == 4,
        forall|i: int| 0 <= i < 4 ==> (#[trigger] r@[i]).0@ == builtin_partitions()[i].0 && r@[i].1 == builtin_partitions()[i].1,
{
    let mut r: Vec<(String, bool)> = Vec::new();
    r.push((String::from_str("vendor"), true));
    r.push((String::from_str("system_ext"), true));
    r.push((String::from_str("product"), true));
    r.push((String::from_str("odm"), false));
    proof {
        reveal_strlit("vendor");
        reveal_strlit("system_ext");
        reveal_strlit("product");
        reveal_strlit("odm");
        assert(r@[0].0@ =~= builtin_partitions()[0].0);
        assert(r@[1].0@ =~= builtin_partitions()[1].0);
        assert(r@[2].0@ =~= builtin_partitions()[2].0);
        assert(r@[3].0@ =~= builtin_partitions()[3].0);
    }
    r
}

pub open spec fn cand_views(v: Seq<(String, bool)>) -> Seq<(Seq<char>, bool)> {
    v.map_values(|c: (String, bool)| (c.0@, c.1))
}

/// The partitions that may be moved out of `system`, with whether
/// `/system/<name>` must be a symlink for it.
pub fn promotion_list(extra_partitions: &Vec<String>) -> (r: Vec<(String, bool)>)
    ensures
        cand_views(r@) == promotion_candidates(extra_partitions@),
{
    let mut r = builtin_list();
    assert(cand_views(r@) =~= builtin_partitions());
    let system = String::from_str("system");
    proof {
        reveal_strlit("system");
        assert(system@ =~= system_name());
    }
    let mut i: usize = 0;
    while i < extra_partitions.len()
        invariant
            i <= extra_partitions.len(),
            r@.len() >= 4,
            system@ == system_name(),
            forall|k: int| 0 <= k < 4 ==> (#[trigger] r@[k]).0@ == builtin_partitions()[k].0,
            cand_views(r@) == builtin_partitions() + extra_candidates(extra_partitions@.take(i as int)),
        decreases extra_partitions.len() - i,
    {
        let p = &extra_partitions[i];
        proof {
            assert(extra_partitions@.take(i + 1).drop_last() =~= extra_partitions@.take(i as int));
        }
        let mut builtin = false;
        let mut k: usize = 0;
        while k < 4
            invariant
                k <= 4,
                r@.len() >= 4,
                forall|q: int| 0 <= q < 4 ==> (#[trigger] r@[q]).0@ == builtin_partitions()[q].0,
                builtin == exists|q: int| 0 <= q < k && (#[trigger] builtin_partitions()[q]).0 == p@,
            decreases 4 - k,
        {
            if r[k].0 == *p {
                builtin = true;
            }
            k += 1;
        }
        assert(is_builtin(p@) == builtin);
        assert(extra_partitions@.take(i + 1).last() == *p);
        let ghost before = r@;
        if !builtin && *p != system {
            r.push((p.clone(), false));
            assert(cand_views(r@) =~= cand_views(before).push((p@, false)));
        }
        i += 1;
    }
    assert(extra_partitions@.take(extra_partitions.len() as int) =~= extra_partitions@);
    r
}

fn collect_all(modules: &Vec<ModuleCandidate>, parts: &Vec<String>) -> (r: Result<(Node, bool), BuildError>)
    ensures
        match fold_modules(empty_dir(system_name()), modules@, views(parts@)) {
            Ok((n, h)) => r is Ok && r->Ok_0.0@ == n && r->Ok_0.1 == h,
            Err(e) => r is Err && r->Err_0@ == e,
        },
        r is Ok ==> wf(r->Ok_0.0@) && r->Ok_0.0@.name == system_name() && r->Ok_0.0@.file_type
            == NodeFileType::Directory,
{
    let mut system = Node::new_root("system");
    proof {
        reveal_strlit("system");
        assert(system@.name =~= system_name());
    }
    let ghost start = system@;
    let mut any = false;
    let mut i: usize = 0;
    while i < modules.len()
        invariant
            i <= modules.len(),
            start == empty_dir(system_name()),
            fold_modules(start, modules@.take(i as int), views(parts@)) == Ok::<(NodeView, bool), BuildErrorView>((system@, any)),
            wf(system@),
            system.file_type == NodeFileType::Directory,
            system@.name == system_name(),
        decreases modules.len() - i,
    {
        proof {
            assert(modules@.take(i + 1).drop_last() =~= modules@.take(i as int));
        }
        match collect_module(&mut system, &modules[i], parts) {
            Ok(h) => {
                any = any || h;
            },
            Err(e) => {
                proof {
                    lemma_fold_modules_prefix_err(start, modules@, views(parts@), i + 1);
                }
                return Err(e);
            },
        }
        i += 1;
    }
    assert(modules@.take(modules.len() as int) =~= modules@);
    proof {
        lemma_view(system);
    }
    Ok((system, any))
}

/// Builds the merged tree from the module root's entries, in the order
/// given: the first module to bring a path decides its node. `None` when no
/// module brings anything to mount. Partitions whose real layout allows it
/// move from under `system` to the root.
pub fn collect_module_files(
    modules: &Vec<ModuleCandidate>,
    extra_partitions: &Vec<String>,
    layout: &Vec<PartitionLayout>,
) -> (r: Result<Option<Node>, BuildError>)
    ensures
        match build_tree(modules@, extra_partitions@, layout@) {
            Ok(t) => r is Ok && match r->Ok_0 {
                Some(n) => t == Some(n@),
                None => t is None,
            },
            Err(e) => r is Err && r->Err_0@ == e,
        },
        r matches Ok(Some(n)) ==> wf(n@),
{
    let parts = partition_names(extra_partitions);
    let (mut system, any) = match collect_all(modules, &parts) {
        Ok(v) => v,
        Err(e) => {
            return Err(e);
        },
    };
    if !any {
        return Ok(None);
    }
    let mut root = Node::new_root("");
    proof {
        reveal_strlit("");
        assert(root@.name =~= seq![]);
        assert(root@ == empty_dir(seq![]));
        assert(root@.children =~= seq![]);
        assert(root@ == with_children(empty_dir(seq![]), root@.children));
    }
    let cands = promotion_list(extra_partitions);
    proof {
        lemma_candidates_not_system(extra_partitions@);
    }
    promote_partitions(&mut root, &mut system, &cands, layout);
    let ghost r2 = root@;
    let ghost s2 = system@;
    proof {
        lemma_view(root);
        lemma_view(system);
    }
    root.children.push(system);
    proof {
        lemma_view(root);
        assert(root@.children =~= r2.children.push(s2));
        let rc = root@.children;
        assert forall|a: int, b: int| 0 <= a < rc.len() && 0 <= b < rc.len() && a != b implies (#[trigger] rc[a]).name
            != (#[trigger] rc[b]).name by {
            if a < r2.children.len() && b < r2.children.len() {
            } else if a < r2.children.len() {
                assert(rc[b] == s2);
            } else {
                assert(rc[a] == s2);
            }
        }
        assert forall|i: int| 0 <= i < rc.len() implies wf(#[trigger] rc[i]) by {
            if i < r2.children.len() {
                assert(rc[i] == r2.children[i]);
            }
        }
    }
    Ok(Some(root))
}

/// `root` and `system` split the children between them: the names are
/// unique across both, every moved child is well formed and none is named
/// `system`.
spec fn split_ok(r: NodeView, s: NodeView) -> bool {
    &&& r == with_children(empty_dir(seq![]), r.children)
    &&& unique_names(r.children)
    &&& forall|k: int| 0 <= k < r.children.len() ==> wf(#[trigger] r.children[k]) && r.children[k].name != system_name()
    &&& forall|a: int, b: int| 0 <= a < r.children.len() && 0 <= b < s.children.len() ==> (#[trigger] r.children[a]).name
        != (#[trigger] s.children[b]).name
    &&& wf(s)
    &&& s.name == system_name()
    &&& s.file_type == NodeFileType::Directory
}

proof fn lemma_candidates_not_system(extra: Seq<String>)
    ensures
        forall|k: int| 0 <= k < promotion_candidates(extra).len() ==> (#[trigger] promotion_candidates(extra)[k]).0 != system_name(),
    decreases extra.len(),
{
    let b = builtin_partitions();
    let c = promotion_candidates(extra);
    lemma_extra_not_system(extra);
    assert forall|k: int| 0 <= k < c.len() implies (#[trigger] c[k]).0 != system_name() by {
        if k < 4 {
            assert(c[k] == b[k]);
            if k == 0 || k == 2 {
                assert(b[k].0[0] != system_name()[0]);
            } else {
                assert(b[k].0.len() != system_name().len());
            }
        } else {
            assert(c[k] == extra_candidates(extra)[k - 4]);
        }
    }
}

proof fn lemma_extra_not_system(extra: Seq<String>)
    ensures
        forall|k: int| 0 <= k < extra_candidates(extra).len() ==> (#[trigger] extra_candidates(extra)[k]).0 != system_name(),
    decreases extra.len(),
{
    if extra.len() > 0 {
        lemma_extra_not_system(extra.drop_last());
        let c = extra_candidates(extra.drop_last());
        let p = extra.last()@;
        if !(is_builtin(p) || p == system_name()) {
            assert forall|k: int| 0 <= k < c.push((p, false)).len() implies (#[trigger] c.push((p, false))[k]).0 != system_name() by {
                if k < c.len() {
                    assert(c.push((p, false))[k] == c[k]);
                }
            }
        }
    }
}

proof fn lemma_split_step(r: NodeView, s: NodeView, j: int)
    requires
        split_ok(r, s),
        0 <= j < s.children.len(),
        s.children[j].name != system_name(),
    ensures
        split_ok(with_children(r, r.children.push(s.children[j])), with_children(s, s.children.remove(j))),
{
    let c = s.children[j];
    let r2 = with_children(r, r.children.push(c));
    let s2 = with_children(s, s.children.remove(j));
    lemma_remove_unique(s.children, j);
    assert(wf(c));
    assert forall|a: int, b: int| 0 <= a < r2.children.len() && 0 <= b < r2.children.len() && a != b implies (
    #[trigger] r2.children[a]).name != (#[trigger] r2.children[b]).name by {
        if a == r.children.len() {
            assert(r.children[b].name != s.children[j].name);
        } else if b == r.children.len() {
            assert(r.children[a].name != s.children[j].name);
        } else {
            assert(r2.children[a] == r.children[a] && r2.children[b] == r.children[b]);
        }
    }
    assert forall|k: int| 0 <= k < r2.children.len() implies wf(#[trigger] r2.children[k]) && r2.children[k].name
        != system_name() by {
        if k < r.children.len() {
            assert(r2.children[k] == r.children[k]);
        }
    }
    assert forall|a: int, b: int| 0 <= a < r2.children.len() && 0 <= b < s2.children.len() implies (
    #[trigger] r2.children[a]).name != (#[trigger] s2.children[b]).name by {
        let b2 = if b < j { b } else { b + 1 };
        assert(s2.children[b] == s.children[b2]);
        if a == r.children.len() {
            assert(!names_contain(s.children.remove(j), c.name));
            assert(s2.children[b].name != c.name);
        } else {
            assert(r2.children[a] == r.children[a]);
        }
    }
    assert forall|i: int| 0 <= i < s2.children.len() implies wf(#[trigger] s2.children[i]) by {
        let i2 = if i < j { i } else { i + 1 };
        assert(s2.children[i] == s.children[i2]);
    }
}

fn promote_partitions(root: &mut Node, system: &mut Node, cands: &Vec<(String, bool)>, layout: &Vec<PartitionLayout>)
    requires
        split_ok(old(root)@, old(system)@),
        old(root)@ == empty_dir(seq![]),
        forall|k: int| 0 <= k < cands@.len() ==> (#[trigger] cand_views(cands@)[k]).0 != system_name(),
    ensures
        promote_all(old(root)@, old(system)@, cand_views(cands@), layout@) == (final(root)@, final(system)@),
        split_ok(final(root)@, final(system)@),
{
    let ghost root0 = root@;
    let ghost sys0 = system@;
    let mut k: usize = 0;
    while k < cands.len()
        invariant
            k <= cands.len(),
            forall|q: int| 0 <= q < cands@.len() ==> (#[trigger] cand_views(cands@)[q]).0 != system_name(),
            promote_all(root0, sys0, cand_views(cands@).take(k as int), layout@) == (root@, system@),
            split_ok(root@, system@),
        decreases cands.len() - k,
    {
        proof {
            assert(cand_views(cands@).take(k + 1).drop_last() =~= cand_views(cands@).take(k as int));
            assert(cand_views(cands@).take(k + 1).last() == (cands@[k as int].0@, cands@[k as int].1));
            assert(cand_views(cands@)[k as int].0 != system_name());
        }
        let name = &cands[k].0;
        let require_symlink = cands[k].1;
        let ghost r1 = root@;
        let ghost s1 = system@;
        proof {
            lemma_view(*system);
            lemma_view(*root);
        }
        match system.find_child(name) {
            Some(j) => {
                let allowed = match find_layout_index(layout, name) {
                    Some(l) => layout[l].root_is_dir && (!require_symlink || layout[l].system_is_symlink),
                    None => false,
                };
                if allowed {
                    proof {
                        lemma_child_index_named(s1.children, name@);
                    }
                    let c = system.children.remove(j);
                    root.children.push(c);
                    proof {
                        lemma_view(*system);
                        lemma_view(*root);
                        assert(system@.children =~= s1.children.remove(j as int));
                        assert(root@.children =~= r1.children.push(s1.children[j as int]));
                        lemma_split_step(r1, s1, j as int);
                        assert(root@ == with_children(r1, r1.children.push(s1.children[j as int])));
                        assert(system@ == with_children(s1, s1.children.remove(j as int)));
                    }
                }
            },
            None => {},
        }
        k += 1;
    }
    assert(cand_views(cands@).take(cands.len() as int) =~= cand_views(cands@));
}

proof fn lemma_find_partition_member(ps: Seq<PartitionDir>, name: Seq<char>)
    ensures
        match find_partition(ps, name) {
            Some(p) => exists|k: int| 0 <= k < ps.len() && ps[k] == p,
            None => true,
        },
    decreases ps.len(),
{
    if ps.len() > 0 && ps[0].name@ != name {
        lemma_find_partition_member(ps.drop_first(), name);
        match find_partition(ps, name) {
            Some(p) => {
                let k = choose|k: int| 0 <= k < ps.len() - 1 && ps.drop_first()[k] == p;
                assert(ps[k + 1] == p);
            },
            None => {},
        }
    } else if ps.len() > 0 {
        assert(ps[0] == ps[0]);
    }
}

/// No module holds a content directory, under any partition name.
pub open spec fn no_content(modules: Seq<ModuleCandidate>) -> bool {
    forall|i: int, k: int|
        0 <= i < modules.len() && 0 <= k < modules[i].partitions@.len() ==> !(#[trigger] modules[i].partitions@[k]).is_dir
}

proof fn lemma_fold_modules_no_content(s: NodeView, ms: Seq<ModuleCandidate>, parts: Seq<Seq<char>>)
    requires
        no_content(ms),
    ensures
        fold_modules(s, ms, parts) is Err || fold_modules(s, ms, parts) == Ok::<(NodeView, bool), BuildErrorView>((s, false)),
    decreases ms.len(),
{
    if ms.len() > 0 {
        assert(no_content(ms.drop_last())) by {
            assert forall|i: int, k: int|
                0 <= i < ms.drop_last().len() && 0 <= k < ms.drop_last()[i].partitions@.len() implies !(
            #[trigger] ms.drop_last()[i].partitions@[k]).is_dir by {
                assert(ms.drop_last()[i] == ms[i]);
            }
        }
        lemma_fold_modules_no_content(s, ms.drop_last(), parts);
        let m = ms.last();
        assert forall|i: int| 0 <= i < parts.len() implies !partition_is_dir(m, #[trigger] parts[i]) by {
            lemma_find_partition_member(m.partitions@, parts[i]);
            match find_partition(m.partitions@, parts[i]) {
                Some(p) => {
                    let k = choose|k: int| 0 <= k < m.partitions@.len() && m.partitions@[k] == p;
                    assert(!ms[ms.len() - 1].partitions@[k].is_dir);
                },
                None => {},
            }
        }
    }
}

/// When no module holds a content directory, there is nothing to mount:
/// building either fails (on a module's metadata) or yields no tree.
pub proof fn lemma_no_content_nothing_to_mount(
    modules: Seq<ModuleCandidate>,
    extra: Seq<String>,
    layout: Seq<PartitionLayout>,
)
    requires
        no_content(modules),
    ensures
        build_tree(modules, extra, layout) is Err || build_tree(modules, extra, layout) == Ok::<
            Option<NodeView>,
            BuildErrorView,
        >(None),
{
    lemma_fold_modules_no_content(empty_dir(system_name()), modules, search_partitions(extra));
}

proof fn lemma_fold_modules_same_prefix(
    s: NodeView,
    a1: Seq<ModuleCandidate>,
    a2: Seq<ModuleCandidate>,
    b: Seq<ModuleCandidate>,
    parts: Seq<Seq<char>>,
)
    requires
        fold_modules(s, a1, parts) == fold_modules(s, a2, parts),
    ensures
        fold_modules(s, a1 + b, parts) == fold_modules(s, a2 + b, parts),
    decreases b.len(),
{
    if b.len() == 0 {
        assert(a1 + b =~= a1);
        assert(a2 + b =~= a2);
    } else {
        lemma_fold_modules_same_prefix(s, a1, a2, b.drop_last(), parts);
        assert((a1 + b).drop_last() =~= a1 + b.drop_last());
        assert((a2 + b).drop_last() =~= a2 + b.drop_last());
    }
}

/// A module that carries a disable, remove or skip-mount marker brings no
/// node: with it the build fails (on its metadata) or gives what it gives
/// without it.
pub proof fn lemma_marked_module_ignored(
    before: Seq<ModuleCandidate>,
    m: ModuleCandidate,
    after: Seq<ModuleCandidate>,
    extra: Seq<String>,
    layout: Seq<PartitionLayout>,
)
    requires
        has_marker(m),
    ensures
        build_tree(before.push(m) + after, extra, layout) is Err || build_tree(before.push(m) + after, extra, layout)
            == build_tree(before + after, extra, layout),
{
    let s0 = empty_dir(system_name());
    let parts = search_partitions(extra);
    let with_m = before.push(m);
    assert(with_m.drop_last() =~= before);
    if fold_modules(s0, with_m, parts) is Err {
        assert((with_m + after).take(with_m.len() as int) =~= with_m);
        lemma_fold_modules_prefix_err(s0, with_m + after, parts, with_m.len() as int);
    } else {
        lemma_fold_modules_same_prefix(s0, with_m, before, after, parts);
    }
}

/// The tree is a function of what the module store and the partitions
/// show: the same inputs give the same tree (or the same failure).
pub proof fn lemma_build_deterministic(
    modules1: Seq<ModuleCandidate>,
    modules2: Seq<ModuleCandidate>,
    extra: Seq<String>,
    layout: Seq<PartitionLayout>,
)
    requires
        modules1 == modules2,
    ensures
        build_tree(modules1, extra, layout) == build_tree(modules2, extra, layout),
{
}

pub open spec fn vendor_name() -> Seq<char> {
    seq!['v', 'e', 'n', 'd', 'o', 'r']
}

proof fn lemma_remove_other(s: Seq<NodeView>, j: int, name: Seq<char>)
    requires
        0 <= j < s.len(),
        s[j].name != name,
    ensures
        names_contain(s.remove(j), name) == names_contain(s, name),
{
    let t = s.remove(j);
    if names_contain(s, name) {
        let k = choose|k: int| 0 <= k < s.len() && (#[trigger] s[k]).name == name;
        if k < j {
            assert(t[k] == s[k]);
        } else {
            assert(t[k - 1] == s[k]);
        }
    }
    if names_contain(t, name) {
        let k = choose|k: int| 0 <= k < t.len() && (#[trigger] t[k]).name == name;
        if k < j {
            assert(t[k] == s[k]);
        } else {
            assert(t[k] == s[k + 1]);
        }
    }
}

proof fn lemma_remove_unique(s: Seq<NodeView>, j: int)
    requires
        0 <= j < s.len(),
        unique_names(s),
    ensures
        unique_names(s.remove(j)),
        !names_contain(s.remove(j), s[j].name),
{
    let t = s.remove(j);
    assert forall|a: int, b: int| 0 <= a < t.len() && 0 <= b < t.len() && a != b implies (#[trigger] t[a]).name != (#[trigger] t[b]).name by {
        let a2 = if a < j { a } else { a + 1 };
        let b2 = if b < j { b } else { b + 1 };
        assert(t[a] == s[a2] && t[b] == s[b2]);
    }
    if names_contain(t, s[j].name) {
        let k = choose|k: int| 0 <= k < t.len() && (#[trigger] t[k]).name == s[j].name;
        let k2 = if k < j { k } else { k + 1 };
        assert(t[k] == s[k2]);
    }
}

proof fn lemma_push_named(s: Seq<NodeView>, c: NodeView, name: Seq<char>)
    ensures
        names_contain(s.push(c), name) == (names_contain(s, name) || c.name == name),
{
    let t = s.push(c);
    if names_contain(s, name) {
        let k = choose|k: int| 0 <= k < s.len() && (#[trigger] s[k]).name == name;
        assert(t[k] == s[k]);
    }
    if c.name == name {
        assert(t[s.len() as int] == c);
    }
    if names_contain(t, name) {
        let k = choose|k: int| 0 <= k < t.len() && (#[trigger] t[k]).name == name;
        if k < s.len() {
            assert(t[k] == s[k]);
        }
    }
}

proof fn lemma_extra_not_builtin(extra: Seq<String>)
    ensures
        forall|k: int| 0 <= k < extra_candidates(extra).len() ==> !is_builtin((#[trigger] extra_candidates(extra)[k]).0),
    decreases extra.len(),
{
    if extra.len() > 0 {
        lemma_extra_not_builtin(extra.drop_last());
        let c = extra_candidates(extra.drop_last());
        let p = extra.last()@;
        if !(is_builtin(p) || p == system_name()) {
            assert forall|k: int| 0 <= k < c.push((p, false)).len() implies !is_builtin((#[trigger] c.push((p, false))[k]).0) by {
                if k < c.len() {
                    assert(c.push((p, false))[k] == c[k]);
                }
            }
        }
    }
}

proof fn lemma_promote_first(system: NodeView, cands: Seq<(Seq<char>, bool)>, ls: Seq<PartitionLayout>, x: Seq<char>, req: bool)
    requires
        cands.len() >= 1,
        cands[0] == (x, req),
        forall|q: int| 1 <= q < cands.len() ==> (#[trigger] cands[q]).0 != x,
        unique_names(system.children),
        names_contain(system.children, x),
    ensures
        unique_names(promote_all(empty_dir(seq![]), system, cands, ls).1.children),
        may_promote(ls, x, req) ==> names_contain(promote_all(empty_dir(seq![]), system, cands, ls).0.children, x)
            && !names_contain(promote_all(empty_dir(seq![]), system, cands, ls).1.children, x),
        !may_promote(ls, x, req) ==> !names_contain(promote_all(empty_dir(seq![]), system, cands, ls).0.children, x)
            && names_contain(promote_all(empty_dir(seq![]), system, cands, ls).1.children, x),
    decreases cands.len(),
{
    let root0 = empty_dir(seq![]);
    if cands.len() == 1 {
        assert(cands.drop_last() =~= Seq::<(Seq<char>, bool)>::empty());
        lemma_child_index_named(system.children, x);
        let j = child_index(system.children, x)->0;
        if may_promote(ls, x, req) {
            lemma_push_named(root0.children, system.children[j], x);
            lemma_remove_unique(system.children, j);
        }
    } else {
        let prev = cands.drop_last();
        assert(prev[0] == cands[0]);
        assert forall|q: int| 1 <= q < prev.len() implies (#[trigger] prev[q]).0 != x by {
            assert(prev[q] == cands[q]);
        }
        lemma_promote_first(system, prev, ls, x, req);
        let (r1, s1) = promote_all(root0, system, prev, ls);
        let (name, nreq) = cands.last();
        assert(name != x);
        lemma_child_index_named(s1.children, name);
        match child_index(s1.children, name) {
            Some(j) => {
                if may_promote(ls, name, nreq) {
                    lemma_push_named(r1.children, s1.children[j], x);
                    lemma_remove_other(s1.children, j, x);
                    lemma_remove_unique(s1.children, j);
                }
            },
            None => {},
        }
    }
}

/// A `vendor` directory under `system` moves to the root exactly when
/// `/vendor` is a directory and `/system/vendor` a symlink; otherwise it
/// stays under `system` and the root has none.
#[verifier::rlimit(40)]
pub proof fn lemma_vendor_promotion(system: NodeView, extra: Seq<String>, ls: Seq<PartitionLayout>)
    requires
        unique_names(system.children),
        names_contain(system.children, vendor_name()),
    ensures
        may_promote(ls, vendor_name(), true) ==> names_contain(
            promote_all(empty_dir(seq![]), system, promotion_candidates(extra), ls).0.children,
            vendor_name(),
        ) && !names_contain(
            promote_all(empty_dir(seq![]), system, promotion_candidates(extra), ls).1.children,
            vendor_name(),
        ),
        !may_promote(ls, vendor_name(), true) ==> !names_contain(
            promote_all(empty_dir(seq![]), system, promotion_candidates(extra), ls).0.children,
            vendor_name(),
        ) && names_contain(
            promote_all(empty_dir(seq![]), system, promotion_candidates(extra), ls).1.children,
            vendor_name(),
        ),
{
    let cands = promotion_candidates(extra);
    let b = builtin_partitions();
    assert(cands[0] == b[0]);
    assert(is_builtin(vendor_name())) by {
        assert(b[0].0 == vendor_name());
    }
    lemma_extra_not_builtin(extra);
    assert forall|q: int| 1 <= q < cands.len() implies (#[trigger] cands[q]).0 != vendor_name() by {
        if q < 4 {
            assert(cands[q] == b[q]);
            assert(b[q].0[0] != vendor_name()[0]);
        } else {
            assert(cands[q] == extra_candidates(extra)[q - 4]);
        }
    }
    lemma_promote_first(system, cands, ls, vendor_name(), true);
}

/// Lexicographic order of names, character by character.
pub open spec fn name_le(a: Seq<char>, b: Seq<char>) -> bool
    decreases a.len(),
{
    if a.len() == 0 {
        true
    } else if b.len() == 0 {
        false
    } else if a[0] != b[0] {
        a[0] < b[0]
    } else {
        name_le(a.drop_first(), b.drop_first())
    }
}

proof fn lemma_name_le_total(a: Seq<char>, b: Seq<char>)
    ensures
        name_le(a, b) || name_le(b, a),
    decreases a.len(),
{
    if a.len() > 0 && b.len() > 0 && a[0] == b[0] {
        lemma_name_le_total(a.drop_first(), b.drop_first());
    }
}

fn name_le_exec(a: &String, b: &String) -> (r: bool)
    ensures
        r == name_le(a@, b@),
{
    let x = chars_of(a.as_str());
    let y = chars_of(b.as_str());
    let mut i: usize = 0;
    assert(x@.skip(0) =~= x@);
    assert(y@.skip(0) =~= y@);
    while i < x.len() && i < y.len() && x[i] == y[i]
        invariant
            i <= x.len(),
            i <= y.len(),
            name_le(a@, b@) == name_le(x@.skip(i as int), y@.skip(i as int)),
        decreases x.len() - i,
    {
        assert(x@.skip(i as int).drop_first() =~= x@.skip(i + 1));
        assert(y@.skip(i as int).drop_first() =~= y@.skip(i + 1));
        i += 1;
    }
    if i == x.len() {
        true
    } else if i == y.len() {
        false
    } else {
        x[i] < y[i]
    }
}

/// Each module's name is at most the next one's.
pub open spec fn sorted_by_name(ms: Seq<ModuleCandidate>) -> bool {
    forall|i: int| 0 <= i < ms.len() - 1 ==> name_le((#[trigger] ms[i]).name@, ms[i + 1].name@)
}

fn insert_by_name(r: &mut Vec<ModuleCandidate>, m: ModuleCandidate)
    requires
        sorted_by_name(old(r)@),
    ensures
        sorted_by_name(final(r)@),
        final(r)@.to_multiset() == old(r)@.to_multiset().insert(m),
{
    let mut k: usize = 0;
    while k < r.len() && name_le_exec(&r[k].name, &m.name)
        invariant
            k <= r.len(),
            forall|q: int| 0 <= q < k ==> name_le((#[trigger] r@[q]).name@, m.name@),
        decreases r.len() - k,
    {
        k += 1;
    }
    proof {
        if k < r.len() {
            lemma_name_le_total(r@[k as int].name@, m.name@);
        }
    }
    let ghost r0 = r@;
    r.insert(k, m);
    proof {
        vstd::seq_lib::to_multiset_insert(r0, k as int, m);
        assert forall|i: int| 0 <= i < r@.len() - 1 implies name_le((#[trigger] r@[i]).name@, r@[i + 1].name@) by {
            if i + 1 < k {
                assert(r@[i] == r0[i] && r@[i + 1] == r0[i + 1]);
            } else if i + 1 == k {
                assert(r@[i] == r0[i] && r@[i + 1] == m);
            } else if i == k {
                assert(r@[i] == m && r@[i + 1] == r0[i]);
            } else {
                assert(r@[i] == r0[i - 1] && r@[i + 1] == r0[i]);
            }
        }
    }
}

/// The modules ordered by name, so that which module comes first on a
/// shared path does not depend on the order a directory was listed in.
pub fn sort_modules(modules: Vec<ModuleCandidate>) -> (r: Vec<ModuleCandidate>)
    ensures
        r@.to_multiset() == modules@.to_multiset(),
        sorted_by_name(r@),
{
    let mut rest = modules;
    let mut r: Vec<ModuleCandidate> = Vec::new();
    proof {
        r@.to_multiset_ensures();
        vstd::multiset::lemma_multiset_empty_len(r@.to_multiset());
        assert(r@.to_multiset().add(rest@.to_multiset()) =~= modules@.to_multiset());
    }
    while rest.len() > 0
        invariant
            r@.to_multiset().add(rest@.to_multiset()) == modules@.to_multiset(),
            sorted_by_name(r@),
        decreases rest.len(),
    {
        let ghost rest0 = rest@;
        let ghost r0 = r@;
        let m = rest.pop().unwrap();
        proof {
            assert(rest0 =~= rest@.push(m));
            vstd::seq_lib::to_multiset_build(rest@, m);
        }
        insert_by_name(&mut r, m);
        assert(r@.to_multiset().add(rest@.to_multiset()) =~= r0.to_multiset().add(rest0.to_multiset()));
    }
    proof {
        rest@.to_multiset_ensures();
        vstd::multiset::lemma_multiset_empty_len(rest@.to_multiset());
    }
    assert(r@.to_multiset().add(rest@.to_multiset()) =~= r@.to_multiset());
    r
}

} // verus!
