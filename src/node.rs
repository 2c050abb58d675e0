//! The merged tree: one node per path, and the fold of a module's directory
//! into it.

use vstd::prelude::*;

verus! {

/// What a node stands for in the final view.
#[derive(PartialEq, Eq, Structural, Clone, Copy, Debug, Hash)]
pub enum NodeFileType {
    RegularFile,
    Directory,
    Symlink,
    Whiteout,
}

/// The type of a directory entry as `lstat` reports it.
#[derive(PartialEq, Eq, Structural, Clone, Copy, Debug, Hash)]
pub enum EntryKind {
    File,
    Dir,
    Symlink,
    CharDevice,
    Other,
}

pub open spec fn kind_node_type(kind: EntryKind) -> NodeFileType {
    match kind {
        EntryKind::File => NodeFileType::RegularFile,
        EntryKind::Dir => NodeFileType::Directory,
        EntryKind::Symlink => NodeFileType::Symlink,
        _ => NodeFileType::Whiteout,
    }
}

impl NodeFileType {
    /// Files, directories and symlinks keep their type; anything else is
    /// taken as a deletion marker.
    pub fn from_kind(kind: EntryKind) -> (r: NodeFileType)
        ensures
            r == kind_node_type(kind),
    {
        match kind {
            EntryKind::File => NodeFileType::RegularFile,
            EntryKind::Dir => NodeFileType::Directory,
            EntryKind::Symlink => NodeFileType::Symlink,
            _ => NodeFileType::Whiteout,
        }
    }
}

/// The metadata of a module entry, read without following symlinks.
#[derive(Clone, Copy, Debug)]
pub struct EntryMeta {
    pub kind: EntryKind,
    /// The device number of a device file.
    pub rdev: u64,
}

/// A character device with device number zero is a whiteout.
pub open spec fn meta_node_type(meta: EntryMeta) -> NodeFileType {
    if meta.kind == EntryKind::CharDevice && meta.rdev == 0 {
        NodeFileType::Whiteout
    } else {
        kind_node_type(meta.kind)
    }
}

/// What listing a path of the module store as a directory gives.
#[derive(Debug)]
pub struct ModuleDir {
    pub path: String,
    /// `None` when the path cannot be listed (absent, not a directory, or
    /// unreadable).
    pub entries: Option<Vec<ModuleEntry>>,
}

/// One entry of a module directory.
#[derive(Debug)]
pub struct ModuleEntry {
    pub name: String,
    /// `None` when the metadata of the entry could not be read.
    pub meta: Option<EntryMeta>,
    /// The value of the opaque-directory attribute, where it could be read.
    pub opaque_attr: Option<Vec<u8>>,
    /// The entry's own path, listed as a directory.
    pub dir: ModuleDir,
}

/// The opaque attribute marks a directory when its value is exactly `y`.
pub open spec fn opaque_marked(attr: Option<Vec<u8>>) -> bool {
    match attr {
        Some(v) => v@ == seq![121u8],
        None => false,
    }
}

/// Why building the merged tree failed.
#[derive(Clone, Debug)]
pub enum BuildError {
    /// A directory of the module store could not be listed.
    ReadDir { path: String },
    /// The metadata file of a module could not be read.
    ReadProp { module: String },
    /// A module declares an id outside the accepted character set.
    InvalidModuleId { id: String },
}

pub ghost enum BuildErrorView {
    ReadDir { path: Seq<char> },
    ReadProp { module: Seq<char> },
    InvalidModuleId { id: Seq<char> },
}

impl BuildError {
    pub open spec fn view(&self) -> BuildErrorView {
        match self {
            BuildError::ReadDir { path } => BuildErrorView::ReadDir { path: path@ },
            BuildError::ReadProp { module } => BuildErrorView::ReadProp { module: module@ },
            BuildError::InvalidModuleId { id } => BuildErrorView::InvalidModuleId { id: id@ },
        }
    }
}

/// One path's target state.
#[derive(Debug)]
pub struct Node {
    pub name: String,
    pub file_type: NodeFileType,
    pub children: Vec<Node>,
    /// Where in the module store this node's content comes from; `None` for a
    /// node that exists only because a descendant needs it.
    pub module_source: Option<String>,
    /// An opaque directory: real children below it are hidden.
    pub replace: bool,
    /// Set while mounting on a child that must be left out.
    pub skip: bool,
}

/// The mathematical model of a node.
pub ghost struct NodeView {
    pub name: Seq<char>,
    pub file_type: NodeFileType,
    pub children: Seq<NodeView>,
    pub module_source: Option<Seq<char>>,
    pub replace: bool,
    pub skip: bool,
}

pub open spec fn opt_view(s: Option<String>) -> Option<Seq<char>> {
    match s {
        Some(s) => Some(s@),
        None => None,
    }
}

impl Node {
    pub open spec fn view(self) -> NodeView
        decreases self,
    {
        NodeView {
            name: self.name@,
            file_type: self.file_type,
            children: Seq::new(
                self.children.len() as nat,
                |i: int|
                    if 0 <= i < self.children.len() {
                        self.children@[i].view()
                    } else {
                        empty_dir(seq![])
                    },
            ),
            module_source: opt_view(self.module_source),
            replace: self.replace,
            skip: self.skip,
        }
    }
}

/// A synthetic directory with no children and no module behind it.
pub open spec fn empty_dir(name: Seq<char>) -> NodeView {
    NodeView {
        name,
        file_type: NodeFileType::Directory,
        children: seq![],
        module_source: None,
        replace: false,
        skip: false,
    }
}

/// `j` is the first child named `name`.
pub open spec fn first_child_at(children: Seq<NodeView>, name: Seq<char>, j: int) -> bool {
    &&& 0 <= j < children.len()
    &&& children[j].name == name
    &&& forall|k: int| 0 <= k < j ==> children[k].name != name
}

/// The position of the child named `name`, if there is one.
pub open spec fn child_index(children: Seq<NodeView>, name: Seq<char>) -> Option<int> {
    if exists|j: int| first_child_at(children, name, j) {
        Some(choose|j: int| first_child_at(children, name, j))
    } else {
        None
    }
}

pub proof fn lemma_first_child_unique(children: Seq<NodeView>, name: Seq<char>, j: int)
    requires
        first_child_at(children, name, j),
    ensures
        child_index(children, name) == Some(j),
{
    let k = choose|k: int| first_child_at(children, name, k);
    assert(first_child_at(children, name, k));
    if k < j {
        assert(children[k].name != name);
    } else if j < k {
        assert(children[j].name != name);
    }
}

pub proof fn lemma_no_child(children: Seq<NodeView>, name: Seq<char>)
    requires
        forall|k: int| 0 <= k < children.len() ==> children[k].name != name,
    ensures
        child_index(children, name) is None,
{
}

pub open spec fn unique_names(s: Seq<NodeView>) -> bool {
    forall|i: int, j: int| 0 <= i < s.len() && 0 <= j < s.len() && i != j ==> (#[trigger] s[i]).name != (#[trigger] s[j]).name
}

/// Sibling names are unique, only directories have children, and only a
/// directory with a module behind it is opaque; throughout the subtree.
pub open spec fn wf(n: NodeView) -> bool
    decreases n,
{
    &&& unique_names(n.children)
    &&& (n.file_type != NodeFileType::Directory ==> n.children.len() == 0)
    &&& (n.replace ==> n.file_type == NodeFileType::Directory && n.module_source is Some)
    &&& forall|i: int| 0 <= i < n.children.len() ==> wf(#[trigger] n.children[i])
}

pub open spec fn names_contain(s: Seq<NodeView>, name: Seq<char>) -> bool {
    exists|k: int| 0 <= k < s.len() && (#[trigger] s[k]).name == name
}

proof fn lemma_first_exists(children: Seq<NodeView>, name: Seq<char>, k: int)
    requires
        0 <= k < children.len(),
        children[k].name == name,
    ensures
        child_index(children, name) is Some,
    decreases k,
{
    if forall|m: int| 0 <= m < k ==> children[m].name != name {
        assert(first_child_at(children, name, k));
    } else {
        let m = choose|m: int| 0 <= m < k && children[m].name != name == false;
        lemma_first_exists(children, name, m);
    }
}

pub proof fn lemma_child_index_named(children: Seq<NodeView>, name: Seq<char>)
    ensures
        match child_index(children, name) {
            Some(j) => 0 <= j < children.len() && children[j].name == name,
            None => !names_contain(children, name),
        },
{
    match child_index(children, name) {
        Some(j) => {
            assert(first_child_at(children, name, j));
        },
        None => {
            if names_contain(children, name) {
                let k = choose|k: int| 0 <= k < children.len() && (#[trigger] children[k]).name == name;
                lemma_first_exists(children, name, k);
            }
        },
    }
}

proof fn lemma_wf_update(n: NodeView, j: int, c: NodeView)
    requires
        wf(n),
        0 <= j < n.children.len(),
        wf(c),
        c.name == n.children[j].name,
    ensures
        wf(with_children(n, n.children.update(j, c))),
{
    let m = with_children(n, n.children.update(j, c));
    assert forall|a: int, b: int| 0 <= a < m.children.len() && 0 <= b < m.children.len() && a != b implies (
    #[trigger] m.children[a]).name != (#[trigger] m.children[b]).name by {
        assert(m.children[a].name == n.children[a].name);
        assert(m.children[b].name == n.children[b].name);
    }
    assert forall|i: int| 0 <= i < m.children.len() implies wf(#[trigger] m.children[i]) by {
        if i != j {
            assert(m.children[i] == n.children[i]);
        }
    }
}

proof fn lemma_wf_push(n: NodeView, c: NodeView)
    requires
        wf(n),
        n.file_type == NodeFileType::Directory,
        wf(c),
        !names_contain(n.children, c.name),
    ensures
        wf(with_children(n, n.children.push(c))),
{
    let m = with_children(n, n.children.push(c));
    let len = n.children.len();
    assert forall|a: int, b: int| 0 <= a < m.children.len() && 0 <= b < m.children.len() && a != b implies (
    #[trigger] m.children[a]).name != (#[trigger] m.children[b]).name by {
        if a < len && b < len {
            assert(m.children[a] == n.children[a] && m.children[b] == n.children[b]);
        } else if a < len {
            assert(m.children[a] == n.children[a]);
        } else {
            assert(m.children[b] == n.children[b]);
        }
    }
    assert forall|i: int| 0 <= i < m.children.len() implies wf(#[trigger] m.children[i]) by {
        if i < len {
            assert(m.children[i] == n.children[i]);
        }
    }
}

/// One level of the view: the fields, and each child's own view.
pub proof fn lemma_view(n: Node)
    ensures
        n@.name == n.name@,
        n@.file_type == n.file_type,
        n@.module_source == opt_view(n.module_source),
        n@.replace == n.replace,
        n@.skip == n.skip,
        n@.children.len() == n.children.len(),
        forall|i: int| 0 <= i < n.children.len() ==> #[trigger] n@.children[i] == n.children@[i]@,
{
}

/// A fold that fails on a prefix fails on the whole, the same way.
pub proof fn lemma_merge_prefix_err(node: NodeView, entries: Seq<ModuleEntry>, k: int)
    requires
        0 <= k <= entries.len(),
        merge_entries(node, entries.take(k)) is Err,
    ensures
        merge_entries(node, entries) == merge_entries(node, entries.take(k)),
    decreases entries.len(),
{
    if k == entries.len() {
        assert(entries.take(k) =~= entries);
    } else {
        assert(entries.drop_last().take(k) =~= entries.take(k));
        lemma_merge_prefix_err(node, entries.drop_last(), k);
    }
}

/// Everything but the children is kept.
pub open spec fn same_fields(a: NodeView, b: NodeView) -> bool {
    &&& a.name == b.name
    &&& a.file_type == b.file_type
    &&& a.module_source == b.module_source
    &&& a.replace == b.replace
    &&& a.skip == b.skip
}

pub open spec fn with_children(n: NodeView, children: Seq<NodeView>) -> NodeView {
    NodeView { children, ..n }
}

/// The node that a module entry introduces, unless its metadata is unreadable.
pub open spec fn module_node(e: ModuleEntry) -> Option<NodeView> {
    match e.meta {
        Some(m) => {
            let t = meta_node_type(m);
            Some(
                NodeView {
                    name: e.name@,
                    file_type: t,
                    children: seq![],
                    module_source: Some(e.dir.path@),
                    replace: t == NodeFileType::Directory && opaque_marked(e.opaque_attr),
                    skip: false,
                },
            )
        },
        None => None,
    }
}

/// Folds a module directory into `node`: the new node, and whether the
/// directory brought a non-directory entry or an opaque directory; the
/// first directory that the fold descends into and cannot list fails it.
pub open spec fn merge_dir(node: NodeView, d: ModuleDir) -> Result<(NodeView, bool), BuildErrorView>
    decreases d,
{
    match d.entries {
        Some(v) => merge_entries(node, v@),
        None => Err(BuildErrorView::ReadDir { path: d.path@ }),
    }
}

/// Folds entries one at a time, in order.
pub open spec fn merge_entries(node: NodeView, entries: Seq<ModuleEntry>) -> Result<(NodeView, bool), BuildErrorView>
    decreases entries,
{
    if entries.len() == 0 {
        Ok((node, false))
    } else {
        match merge_entries(node, entries.drop_last()) {
            Ok((n1, h1)) => match merge_entry(n1, entries.last()) {
                Ok((n2, h2)) => Ok((n2, h1 || h2)),
                Err(err) => Err(err),
            },
            Err(err) => Err(err),
        }
    }
}

/// An entry whose name is taken keeps the node that holds it, and a directory
/// there receives the entry's contents; a new name gets the entry's node.
pub open spec fn merge_entry(node: NodeView, e: ModuleEntry) -> Result<(NodeView, bool), BuildErrorView>
    decreases e,
{
    match child_index(node.children, e.name@) {
        Some(j) => {
            let c = node.children[j];
            if c.file_type == NodeFileType::Directory {
                match merge_dir(c, e.dir) {
                    Ok((c2, h)) => Ok(
                        (with_children(node, node.children.update(j, c2)), h || c2.replace),
                    ),
                    Err(err) => Err(err),
                }
            } else {
                Ok((node, true))
            }
        },
        None => match module_node(e) {
            Some(c) => if c.file_type == NodeFileType::Directory {
                match merge_dir(c, e.dir) {
                    Ok((c2, h)) => Ok(
                        (with_children(node, node.children.push(c2)), h || c2.replace),
                    ),
                    Err(err) => Err(err),
                }
            } else {
                Ok((with_children(node, node.children.push(c)), true))
            },
            None => Ok((node, false)),
        },
    }
}

fn opaque_value(attr: &Option<Vec<u8>>) -> (r: bool)
    ensures
        r == opaque_marked(*attr),
{
    match attr {
        Some(v) => {
            if v.len() == 1 && v[0] == 121u8 {
                assert(v@ =~= seq![121u8]);
                true
            } else {
                false
            }
        },
        None => false,
    }
}

impl Node {
    pub fn new_root(name: &str) -> (r: Node)
        ensures
            r@ == empty_dir(name@),
            wf(r@),
    {
        let r = Node {
            name: name.to_string(),
            file_type: NodeFileType::Directory,
            children: Vec::new(),
            module_source: None,
            replace: false,
            skip: false,
        };
        assert(r@.children =~= seq![]);
        r
    }

    /// The node for one module entry; `None` when its metadata cannot be read.
    pub fn new_module(entry: &ModuleEntry) -> (r: Option<Node>)
        ensures
            match r {
                Some(n) => module_node(*entry) == Some(n@) && wf(n@),
                None => module_node(*entry) is None,
            },
    {
        match &entry.meta {
            Some(meta) => {
                let file_type = if meta.kind == EntryKind::CharDevice && meta.rdev == 0 {
                    NodeFileType::Whiteout
                } else {
                    NodeFileType::from_kind(meta.kind)
                };
                let replace = file_type == NodeFileType::Directory && opaque_value(&entry.opaque_attr);
                let n = Node {
                    name: entry.name.clone(),
                    file_type,
                    children: Vec::new(),
                    module_source: Some(entry.dir.path.clone()),
                    replace,
                    skip: false,
                };
                assert(n@.children =~= seq![]);
                Some(n)
            },
            None => None,
        }
    }

    /// The position of the first child named `name`.
    pub fn find_child(&self, name: &String) -> (r: Option<usize>)
        ensures
            match r {
                Some(j) => child_index(self@.children, name@) == Some(j as int),
                None => child_index(self@.children, name@) is None,
            },
    {
        let mut j: usize = 0;
        while j < self.children.len()
            invariant
                j <= self.children.len(),
                forall|k: int| 0 <= k < j ==> self@.children[k].name != name@,
            decreases self.children.len() - j,
        {
            proof {
                lemma_view(*self);
                lemma_view(self.children@[j as int]);
            }
            if self.children[j].name == *name {
                proof {
                    lemma_first_child_unique(self@.children, name@, j as int);
                }
                return Some(j);
            }
            j += 1;
        }
        proof {
            lemma_no_child(self@.children, name@);
        }
        None
    }

    /// Folds one module entry into this node.
    fn collect_entry(&mut self, entry: &ModuleEntry) -> (r: Result<bool, BuildError>)
        requires
            wf(old(self)@),
            old(self).file_type == NodeFileType::Directory,
        ensures
            r is Ok ==> wf(final(self)@) && same_fields(old(self)@, final(self)@),
            match merge_entry(old(self)@, *entry) {
                Ok((n, h)) => r == Ok::<bool, BuildError>(h) && final(self)@ == n,
                Err(e) => r is Err && r->Err_0@ == e,
            },
        decreases entry,
    {
        let ghost before = self@;
        proof {
            lemma_view(*self);
        }
        match self.find_child(&entry.name) {
            Some(j) => {
                if self.children[j].file_type == NodeFileType::Directory {
                    let mut c = self.children.remove(j);
                    assert(c@ == before.children[j as int]);
                    assert(wf(c@));
                    let h = match c.collect_module_files(&entry.dir) {
                        Ok(h) => h,
                        Err(e) => {
                            return Err(e);
                        },
                    };
                    let rep = c.replace;
                    proof {
                        lemma_view(c);
                    }
                    self.children.insert(j, c);
                    proof {
                        lemma_view(*self);
                        assert(self@.children =~= before.children.update(j as int, c@));
                        lemma_wf_update(before, j as int, c@);
                        assert(self@ == with_children(before, before.children.update(j as int, c@)));
                    }
                    Ok(h || rep)
                } else {
                    Ok(true)
                }
            },
            None => {
                match Node::new_module(entry) {
                    Some(mut c) => {
                        let h = if c.file_type == NodeFileType::Directory {
                            match c.collect_module_files(&entry.dir) {
                                Ok(h) => h || c.replace,
                                Err(e) => {
                                    return Err(e);
                                },
                            }
                        } else {
                            true
                        };
                        proof {
                            lemma_view(c);
                        }
                        self.children.push(c);
                        proof {
                            lemma_view(*self);
                            assert(self@.children =~= before.children.push(c@));
                            lemma_child_index_named(before.children, entry.name@);
                            lemma_wf_push(before, c@);
                            assert(self@ == with_children(before, before.children.push(c@)));
                        }
                        Ok(h)
                    },
                    None => Ok(false),
                }
            },
        }
    }

    /// Folds the module directory `module_dir` into this node. A name that
    /// is already present keeps its node (the first module to bring a path
    /// decides its type and source); a directory there receives the new
    /// contents. Returns whether the directory brought a non-directory entry
    /// or an opaque directory.
    pub fn collect_module_files(&mut self, module_dir: &ModuleDir) -> (r: Result<bool, BuildError>)
        requires
            wf(old(self)@),
            old(self).file_type == NodeFileType::Directory,
        ensures
            r is Ok ==> wf(final(self)@) && same_fields(old(self)@, final(self)@),
            match merge_dir(old(self)@, *module_dir) {
                Ok((n, h)) => r == Ok::<bool, BuildError>(h) && final(self)@ == n,
                Err(e) => r is Err && r->Err_0@ == e,
            },
        decreases module_dir,
    {
        let entries = match &module_dir.entries {
            Some(entries) => entries,
            None => {
                return Err(BuildError::ReadDir { path: module_dir.path.clone() });
            },
        };
        let ghost start = self@;
        let mut has_file = false;
        let mut i: usize = 0;
        while i < entries.len()
            invariant
                i <= entries.len(),
                module_dir.entries == Some(*entries),
                start == old(self)@,
                merge_dir(start, *module_dir) == merge_entries(start, entries@),
                merge_entries(start, entries@.take(i as int)) == Ok::<(NodeView, bool), BuildErrorView>((self@, has_file)),
                wf(self@),
                same_fields(start, self@),
                self.file_type == NodeFileType::Directory,
            decreases entries.len() - i,
        {
            proof {
                assert(entries@.take(i + 1).drop_last() =~= entries@.take(i as int));
            }
            match self.collect_entry(&entries[i]) {
                Ok(h) => {
                    has_file = has_file || h;
                },
                Err(e) => {
                    proof {
                        lemma_merge_prefix_err(start, entries@, i + 1);
                    }
                    return Err(e);
                },
            }
            i += 1;
        }
        proof {
            assert(entries@.take(entries.len() as int) =~= entries@);
        }
        Ok(has_file)
    }
}

} // verus!
