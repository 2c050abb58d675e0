use magic_mount::builder::{
    collect_module_files, partition_names, promotion_list, sort_modules, ModuleCandidate,
    PartitionDir, PartitionLayout, PropFile,
};
use magic_mount::prop::{prop_ids_ok, validate_module_id};
use magic_mount::node::{
    BuildError, EntryKind, EntryMeta, ModuleDir, ModuleEntry, Node, NodeFileType,
};

fn meta(kind: EntryKind) -> Option<EntryMeta> {
    Some(EntryMeta { kind, rdev: 0 })
}

fn file(name: &str, path: &str) -> ModuleEntry {
    ModuleEntry {
        name: name.to_string(),
        meta: meta(EntryKind::File),
        opaque_attr: None,
        dir: ModuleDir { path: path.to_string(), entries: None },
    }
}

fn dir(name: &str, path: &str, entries: Vec<ModuleEntry>) -> ModuleEntry {
    ModuleEntry {
        name: name.to_string(),
        meta: meta(EntryKind::Dir),
        opaque_attr: None,
        dir: ModuleDir { path: path.to_string(), entries: Some(entries) },
    }
}

fn module_with(id: &str, prop: PropFile, partitions: Vec<PartitionDir>) -> ModuleCandidate {
    ModuleCandidate {
        name: id.to_string(),
        is_dir: true,
        prop,
        disabled: false,
        removed: false,
        skip_mount: false,
        partitions,
    }
}

fn system_part(id: &str, entries: Vec<ModuleEntry>) -> PartitionDir {
    PartitionDir {
        name: "system".to_string(),
        exists: true,
        is_dir: true,
        dir: ModuleDir { path: format!("/data/adb/modules/{id}/system"), entries: Some(entries) },
    }
}

fn module(id: &str, system: Vec<ModuleEntry>) -> ModuleCandidate {
    module_with(id, PropFile::Text(format!("id={id}\nname=Test\n")), vec![system_part(id, system)])
}

fn child<'a>(n: &'a Node, name: &str) -> Option<&'a Node> {
    n.find_child(&name.to_string()).map(|j| &n.children[j])
}

fn names(n: &Node) -> Vec<String> {
    let mut v: Vec<String> = n.children.iter().map(|c| c.name.clone()).collect();
    v.sort();
    v
}

/// Every node as (path, type, opaque, source), sorted.
fn shape(n: &Node, prefix: &str, out: &mut Vec<(String, NodeFileType, bool, Option<String>)>) {
    let path = format!("{prefix}/{}", n.name);
    out.push((path.clone(), n.file_type, n.replace, n.module_source.clone()));
    for c in &n.children {
        shape(c, &path, out);
    }
}

fn toybox_module(id: &str) -> ModuleCandidate {
    let base = format!("/data/adb/modules/{id}/system");
    module(
        id,
        vec![dir("bin", &format!("{base}/bin"), vec![file("toybox", &format!("{base}/bin/toybox"))])],
    )
}

#[test]
fn first_module_wins_on_collision() {
    let modules = vec![toybox_module("alpha"), toybox_module("beta")];
    let root = collect_module_files(&modules, &vec![], &vec![]).unwrap().unwrap();
    assert_eq!(names(&root), vec!["system".to_string()]);
    let system = child(&root, "system").unwrap();
    let bin = child(system, "bin").unwrap();
    assert_eq!(bin.children.len(), 1);
    let toybox = child(bin, "toybox").unwrap();
    assert_eq!(toybox.file_type, NodeFileType::RegularFile);
    assert_eq!(
        toybox.module_source,
        Some("/data/adb/modules/alpha/system/bin/toybox".to_string())
    );
    assert_eq!(bin.module_source, Some("/data/adb/modules/alpha/system/bin".to_string()));

    let swapped = vec![toybox_module("beta"), toybox_module("alpha")];
    let root = collect_module_files(&swapped, &vec![], &vec![]).unwrap().unwrap();
    let toybox = child(child(child(&root, "system").unwrap(), "bin").unwrap(), "toybox").unwrap();
    assert_eq!(
        toybox.module_source,
        Some("/data/adb/modules/beta/system/bin/toybox".to_string())
    );
}

#[test]
fn modules_merge_into_one_directory() {
    let a = module("alpha", vec![dir("etc", "/m/a/system/etc", vec![file("a.conf", "/m/a/system/etc/a.conf")])]);
    let b = module("beta", vec![dir("etc", "/m/b/system/etc", vec![file("b.conf", "/m/b/system/etc/b.conf")])]);
    let root = collect_module_files(&vec![a, b], &vec![], &vec![]).unwrap().unwrap();
    let etc = child(child(&root, "system").unwrap(), "etc").unwrap();
    assert_eq!(names(etc), vec!["a.conf".to_string(), "b.conf".to_string()]);
    assert_eq!(
        child(etc, "b.conf").unwrap().module_source,
        Some("/m/b/system/etc/b.conf".to_string())
    );
}

#[test]
fn no_content_means_nothing_to_mount() {
    let empty = module_with("alpha", PropFile::Text("id=alpha\n".to_string()), vec![]);
    let absent = module_with(
        "beta",
        PropFile::Text("id=beta\n".to_string()),
        vec![PartitionDir {
            name: "system".to_string(),
            exists: false,
            is_dir: false,
            dir: ModuleDir { path: "/m/beta/system".to_string(), entries: None },
        }],
    );
    let r = collect_module_files(&vec![empty, absent], &vec!["vendor".to_string()], &vec![]);
    assert!(matches!(r, Ok(None)));
    let r = collect_module_files(&vec![], &vec![], &vec![]);
    assert!(matches!(r, Ok(None)));
}

#[test]
fn empty_content_directory_contributes_nothing() {
    let m = module("alpha", vec![]);
    assert!(matches!(collect_module_files(&vec![m], &vec![], &vec![]), Ok(None)));
}

#[test]
fn marked_modules_are_ignored() {
    for marker in 0..3 {
        let mut m = toybox_module("alpha");
        match marker {
            0 => m.disabled = true,
            1 => m.removed = true,
            _ => m.skip_mount = true,
        }
        assert!(matches!(collect_module_files(&vec![m], &vec![], &vec![]), Ok(None)));
    }
    let mut marked = toybox_module("alpha");
    marked.disabled = true;
    let kept = toybox_module("beta");
    let root = collect_module_files(&vec![marked, kept], &vec![], &vec![]).unwrap().unwrap();
    let toybox = child(child(child(&root, "system").unwrap(), "bin").unwrap(), "toybox").unwrap();
    assert_eq!(
        toybox.module_source,
        Some("/data/adb/modules/beta/system/bin/toybox".to_string())
    );
}

#[test]
fn modules_without_metadata_or_not_directories_are_skipped() {
    let mut no_prop = toybox_module("alpha");
    no_prop.prop = PropFile::Missing;
    let mut not_dir = toybox_module("beta");
    not_dir.is_dir = false;
    assert!(matches!(collect_module_files(&vec![no_prop, not_dir], &vec![], &vec![]), Ok(None)));
}

fn vendor_module() -> ModuleCandidate {
    module(
        "alpha",
        vec![dir("vendor", "/m/alpha/system/vendor", vec![file("foo", "/m/alpha/system/vendor/foo")])],
    )
}

#[test]
fn vendor_is_promoted_when_merged_into_system() {
    let layout = vec![PartitionLayout {
        name: "vendor".to_string(),
        root_is_dir: true,
        system_is_symlink: true,
    }];
    let root = collect_module_files(&vec![vendor_module()], &vec![], &layout).unwrap().unwrap();
    assert_eq!(names(&root), vec!["system".to_string(), "vendor".to_string()]);
    let vendor = child(&root, "vendor").unwrap();
    assert!(child(vendor, "foo").is_some());
    assert!(child(child(&root, "system").unwrap(), "vendor").is_none());
}

#[test]
fn vendor_stays_nested_without_root_partition() {
    let layout = vec![PartitionLayout {
        name: "vendor".to_string(),
        root_is_dir: false,
        system_is_symlink: false,
    }];
    let root = collect_module_files(&vec![vendor_module()], &vec![], &layout).unwrap().unwrap();
    assert_eq!(names(&root), vec!["system".to_string()]);
    let vendor = child(child(&root, "system").unwrap(), "vendor").unwrap();
    assert!(child(vendor, "foo").is_some());
}

#[test]
fn vendor_stays_nested_when_system_vendor_is_real() {
    let layout = vec![PartitionLayout {
        name: "vendor".to_string(),
        root_is_dir: true,
        system_is_symlink: false,
    }];
    let root = collect_module_files(&vec![vendor_module()], &vec![], &layout).unwrap().unwrap();
    assert_eq!(names(&root), vec!["system".to_string()]);
}

#[test]
fn odm_and_extra_partitions_need_no_symlink() {
    let m = module(
        "alpha",
        vec![
            dir("odm", "/m/alpha/system/odm", vec![file("a", "/m/alpha/system/odm/a")]),
            dir("my_stock", "/m/alpha/system/my_stock", vec![file("b", "/m/alpha/system/my_stock/b")]),
        ],
    );
    let layout = vec![
        PartitionLayout { name: "odm".to_string(), root_is_dir: true, system_is_symlink: false },
        PartitionLayout { name: "my_stock".to_string(), root_is_dir: true, system_is_symlink: false },
    ];
    let root = collect_module_files(&vec![m], &vec!["my_stock".to_string()], &layout).unwrap().unwrap();
    assert_eq!(
        names(&root),
        vec!["my_stock".to_string(), "odm".to_string(), "system".to_string()]
    );
}

#[test]
fn extra_partition_contents_fold_into_system() {
    let m = module_with(
        "alpha",
        PropFile::Text("id=alpha\n".to_string()),
        vec![PartitionDir {
            name: "mi_ext".to_string(),
            exists: true,
            is_dir: true,
            dir: ModuleDir {
                path: "/m/alpha/mi_ext".to_string(),
                entries: Some(vec![file("x", "/m/alpha/mi_ext/x")]),
            },
        }],
    );
    let root = collect_module_files(&vec![m], &vec!["mi_ext".to_string()], &vec![]).unwrap().unwrap();
    let x = child(child(&root, "system").unwrap(), "x").unwrap();
    assert_eq!(x.module_source, Some("/m/alpha/mi_ext/x".to_string()));
}

#[test]
fn building_twice_gives_the_same_tree() {
    let make = || {
        vec![
            toybox_module("alpha"),
            vendor_module(),
            module("gamma", vec![dir("etc", "/m/g/system/etc", vec![file("hosts", "/m/g/system/etc/hosts")])]),
        ]
    };
    let a = collect_module_files(&make(), &vec![], &vec![]).unwrap().unwrap();
    let b = collect_module_files(&make(), &vec![], &vec![]).unwrap().unwrap();
    let (mut sa, mut sb) = (Vec::new(), Vec::new());
    shape(&a, "", &mut sa);
    shape(&b, "", &mut sb);
    sa.sort_by(|x, y| x.0.cmp(&y.0));
    sb.sort_by(|x, y| x.0.cmp(&y.0));
    assert_eq!(sa, sb);
    assert_eq!(sa.len(), 8);
}

#[test]
fn whiteout_and_opaque_entries() {
    let whiteout = ModuleEntry {
        name: "gone".to_string(),
        meta: Some(EntryMeta { kind: EntryKind::CharDevice, rdev: 0 }),
        opaque_attr: None,
        dir: ModuleDir { path: "/m/a/system/gone".to_string(), entries: None },
    };
    let mut opaque = dir("app", "/m/a/system/app", vec![]);
    opaque.opaque_attr = Some(b"y".to_vec());
    let mut not_opaque = dir("etc", "/m/a/system/etc", vec![]);
    not_opaque.opaque_attr = Some(b"yes".to_vec());
    let m = module("alpha", vec![whiteout, opaque, not_opaque]);
    let root = collect_module_files(&vec![m], &vec![], &vec![]).unwrap().unwrap();
    let system = child(&root, "system").unwrap();
    assert_eq!(child(system, "gone").unwrap().file_type, NodeFileType::Whiteout);
    assert!(child(system, "app").unwrap().replace);
    assert!(!child(system, "etc").unwrap().replace);
}

#[test]
fn opaque_empty_directory_counts_as_content() {
    let mut opaque = dir("app", "/m/a/system/app", vec![]);
    opaque.opaque_attr = Some(b"y".to_vec());
    let m = module("alpha", vec![opaque]);
    assert!(collect_module_files(&vec![m], &vec![], &vec![]).unwrap().is_some());
}

#[test]
fn unreadable_directory_fails_the_build() {
    let broken = ModuleEntry {
        name: "etc".to_string(),
        meta: meta(EntryKind::Dir),
        opaque_attr: None,
        dir: ModuleDir { path: "/m/a/system/etc".to_string(), entries: None },
    };
    let m = module("alpha", vec![broken]);
    match collect_module_files(&vec![m], &vec![], &vec![]) {
        Err(BuildError::ReadDir { path }) => assert_eq!(path, "/m/a/system/etc"),
        other => panic!("unexpected {other:?}"),
    }
}

#[test]
fn unreadable_metadata_fails_the_build() {
    let mut m = toybox_module("alpha");
    m.prop = PropFile::Unreadable;
    assert!(matches!(
        collect_module_files(&vec![m], &vec![], &vec![]),
        Err(BuildError::ReadProp { .. })
    ));
}

#[test]
fn invalid_module_id_fails_the_build() {
    let mut m = toybox_module("alpha");
    m.prop = PropFile::Text("name=x\nid=1bad\n".to_string());
    assert!(matches!(
        collect_module_files(&vec![m], &vec![], &vec![]),
        Err(BuildError::InvalidModuleId { .. })
    ));
    let mut marked = toybox_module("beta");
    marked.disabled = true;
    marked.prop = PropFile::Text("id=b\n".to_string());
    assert!(matches!(
        collect_module_files(&vec![marked], &vec![], &vec![]),
        Err(BuildError::InvalidModuleId { .. })
    ));
}

#[test]
fn metadata_without_readable_entry_keeps_the_entry_out() {
    let mut e = file("f", "/m/a/system/f");
    e.meta = None;
    let m = module("alpha", vec![e]);
    assert!(matches!(collect_module_files(&vec![m], &vec![], &vec![]), Ok(None)));
}

#[test]
fn module_ids() {
    assert!(validate_module_id("ab"));
    assert!(validate_module_id("zygisk_next-1.0"));
    assert!(!validate_module_id("a"));
    assert!(!validate_module_id("1abc"));
    assert!(!validate_module_id("ab c"));
    assert!(!validate_module_id(""));
}

#[test]
fn metadata_id_lines() {
    assert!(prop_ids_ok("id=good_id\nname=Whatever it is\n"));
    assert!(prop_ids_ok("id=good\r\nversion=1\r\n"));
    assert!(prop_ids_ok(""));
    assert!(prop_ids_ok("name=no id here"));
    assert!(prop_ids_ok("identity"));
    assert!(!prop_ids_ok("id = spaced"));
    assert!(!prop_ids_ok("name=x\nidentity=1x"));
    assert!(!prop_ids_ok("id=ok\nid=x"));
    assert!(!prop_ids_ok("id=trailing\r"));
}

#[test]
fn searched_and_promoted_partitions() {
    let extra = vec!["mi_ext".to_string(), "system".to_string(), "vendor".to_string(), "mi_ext".to_string()];
    assert_eq!(
        partition_names(&extra),
        vec!["system".to_string(), "mi_ext".to_string(), "vendor".to_string()]
    );
    assert_eq!(
        promotion_list(&extra),
        vec![
            ("vendor".to_string(), true),
            ("system_ext".to_string(), true),
            ("product".to_string(), true),
            ("odm".to_string(), false),
            ("mi_ext".to_string(), false),
            ("mi_ext".to_string(), false),
        ]
    );
}

#[test]
fn node_constructors() {
    let r = Node::new_root("system");
    assert_eq!(r.name, "system");
    assert_eq!(r.file_type, NodeFileType::Directory);
    assert!(r.children.is_empty() && r.module_source.is_none() && !r.replace && !r.skip);
    let n = Node::new_module(&file("toybox", "/m/a/system/bin/toybox")).unwrap();
    assert_eq!(n.file_type, NodeFileType::RegularFile);
    assert_eq!(n.module_source, Some("/m/a/system/bin/toybox".to_string()));
    let dev = ModuleEntry {
        name: "tty".to_string(),
        meta: Some(EntryMeta { kind: EntryKind::CharDevice, rdev: 5 }),
        opaque_attr: None,
        dir: ModuleDir { path: "/m/a/tty".to_string(), entries: None },
    };
    assert_eq!(Node::new_module(&dev).unwrap().file_type, NodeFileType::Whiteout);
    assert_eq!(NodeFileType::from_kind(EntryKind::Symlink), NodeFileType::Symlink);
    assert_eq!(NodeFileType::from_kind(EntryKind::Other), NodeFileType::Whiteout);
}

#[test]
fn fold_into_existing_file_keeps_it() {
    let mut n = Node::new_root("system");
    let first = ModuleDir { path: "/m/a/system".to_string(), entries: Some(vec![file("x", "/m/a/system/x")]) };
    assert_eq!(n.collect_module_files(&first).unwrap(), true);
    let second = ModuleDir {
        path: "/m/b/system".to_string(),
        entries: Some(vec![dir("x", "/m/b/system/x", vec![file("y", "/m/b/system/x/y")])]),
    };
    assert_eq!(n.collect_module_files(&second).unwrap(), true);
    assert_eq!(n.children.len(), 1);
    assert_eq!(n.children[0].file_type, NodeFileType::RegularFile);
    assert!(n.children[0].children.is_empty());
    let empty = ModuleDir { path: "/m/c/system".to_string(), entries: Some(vec![]) };
    assert_eq!(n.collect_module_files(&empty).unwrap(), false);
}

#[test]
fn modules_sort_by_name() {
    let sorted = sort_modules(vec![toybox_module("zeta"), toybox_module("alpha"), toybox_module("mid"), toybox_module("Beta")]);
    let names: Vec<&str> = sorted.iter().map(|m| m.name.as_str()).collect();
    assert_eq!(names, vec!["Beta", "alpha", "mid", "zeta"]);
    assert!(sort_modules(vec![]).is_empty());
}
