use magic_mount::mount::{
    join_path, magic_mount, mirror_entry, FailReason, Failure, MountOp, RealDir, RealEntry, RunState, Step,
};
use magic_mount::node::{EntryKind, Node, NodeFileType};

fn node(name: &str, file_type: NodeFileType, source: Option<&str>, children: Vec<Node>) -> Node {
    Node {
        name: name.to_string(),
        file_type,
        children,
        module_source: source.map(|s| s.to_string()),
        replace: false,
        skip: false,
    }
}

fn root(children: Vec<Node>) -> Node {
    node("", NodeFileType::Directory, None, children)
}

fn entry(name: &str, kind: EntryKind) -> RealEntry {
    RealEntry { name: name.to_string(), kind, exists: true }
}

fn real_dir(path: &str, entries: Vec<RealEntry>) -> RealDir {
    RealDir { path: path.to_string(), exists: true, entries: Some(entries) }
}

fn ops(steps: &[Step]) -> Vec<MountOp> {
    steps.iter().map(|s| s.op.clone()).collect()
}

fn s(x: &str) -> String {
    x.to_string()
}

fn base_snapshot() -> Vec<RealDir> {
    vec![
        real_dir("/", vec![entry("system", EntryKind::Dir), entry("vendor", EntryKind::Symlink)]),
        real_dir("/system", vec![entry("app", EntryKind::Dir), entry("bin", EntryKind::Dir)]),
        real_dir("/system/app", vec![entry("Bar", EntryKind::Dir), entry("notes", EntryKind::File)]),
        real_dir("/system/bin", vec![entry("toybox", EntryKind::File), entry("sh", EntryKind::Symlink)]),
    ]
}

#[test]
fn new_app_directory_shadows_its_parent_only() {
    let apk = node("base.apk", NodeFileType::RegularFile, Some("/m/a/system/app/Foo/base.apk"), vec![]);
    let foo = node("Foo", NodeFileType::Directory, Some("/m/a/system/app/Foo"), vec![apk]);
    let app = node("app", NodeFileType::Directory, Some("/m/a/system/app"), vec![foo]);
    let system = node("system", NodeFileType::Directory, None, vec![app]);
    let steps = magic_mount(&Some(root(vec![system])), &s("/tmp/w"), &base_snapshot(), false);
    let w = "/tmp/w/system/app";
    assert_eq!(
        ops(&steps),
        vec![
            MountOp::MakeShadowDir { work: s(w), source: s("/system/app") },
            MountOp::BindSelf { work: s(w) },
            MountOp::MirrorDir { path: s("/system/app/Bar"), work: s("/tmp/w/system/app/Bar") },
            MountOp::CreateFile { target: s("/tmp/w/system/app/notes") },
            MountOp::Bind {
                source: s("/system/app/notes"),
                target: s("/tmp/w/system/app/notes"),
                register_on_failure: false,
            },
            MountOp::MakeShadowDir { work: s("/tmp/w/system/app/Foo"), source: s("/m/a/system/app/Foo") },
            MountOp::CreateFile { target: s("/tmp/w/system/app/Foo/base.apk") },
            MountOp::Bind {
                source: s("/m/a/system/app/Foo/base.apk"),
                target: s("/tmp/w/system/app/Foo/base.apk"),
                register_on_failure: false,
            },
            MountOp::RemountReadOnly { target: s("/tmp/w/system/app/Foo/base.apk") },
            MountOp::RemountReadOnly { target: s(w) },
            MountOp::MoveMount { from: s(w), to: s("/system/app") },
            MountOp::MakePrivate { target: s("/system/app") },
        ]
    );
    // Neither `/` nor `/system` is shadowed.
    assert!(!steps.iter().any(|st| matches!(&st.op, MountOp::MoveMount { to, .. } if to == "/system" || to == "/")));
    assert!(steps.iter().all(|st| st.unit == "/system/app" && !st.fatal));
}

#[test]
fn replaced_file_is_bound_in_place() {
    let toybox = node("toybox", NodeFileType::RegularFile, Some("/m/a/system/bin/toybox"), vec![]);
    let bin = node("bin", NodeFileType::Directory, Some("/m/a/system/bin"), vec![toybox]);
    let system = node("system", NodeFileType::Directory, None, vec![bin]);
    let steps = magic_mount(&Some(root(vec![system])), &s("/tmp/w"), &base_snapshot(), true);
    assert_eq!(
        ops(&steps),
        vec![
            MountOp::Bind {
                source: s("/m/a/system/bin/toybox"),
                target: s("/system/bin/toybox"),
                register_on_failure: true,
            },
            MountOp::RemountReadOnly { target: s("/system/bin/toybox") },
        ]
    );
    assert_eq!(steps[0].unit, "/system/bin/toybox");
}

#[test]
fn no_tree_no_steps() {
    assert!(magic_mount(&None, &s("/tmp/w"), &base_snapshot(), true).is_empty());
}

#[test]
fn opaque_directory_hides_real_children() {
    let own = node("mine.apk", NodeFileType::RegularFile, Some("/m/a/system/app/mine.apk"), vec![]);
    let other = node("Other", NodeFileType::Directory, Some("/m/b/system/app/Other"), vec![
        node("o.apk", NodeFileType::RegularFile, Some("/m/b/system/app/Other/o.apk"), vec![]),
    ]);
    let mut app = node("app", NodeFileType::Directory, Some("/m/a/system/app"), vec![own, other]);
    app.replace = true;
    let system = node("system", NodeFileType::Directory, None, vec![app]);
    let steps = magic_mount(&Some(root(vec![system])), &s("/tmp/w"), &base_snapshot(), true);
    let all = ops(&steps);
    assert!(!all.iter().any(|op| matches!(op, MountOp::MirrorDir { .. })));
    assert!(!all.iter().any(|op| matches!(op, MountOp::Bind { source, .. } if source.starts_with("/system/app"))));
    assert_eq!(all[0], MountOp::MakeShadowDir { work: s("/tmp/w/system/app"), source: s("/system/app") });
    assert_eq!(all[1], MountOp::BindSelf { work: s("/tmp/w/system/app") });
    assert!(all.contains(&MountOp::Bind {
        source: s("/m/a/system/app/mine.apk"),
        target: s("/tmp/w/system/app/mine.apk"),
        register_on_failure: true,
    }));
    assert!(all.contains(&MountOp::Bind {
        source: s("/m/b/system/app/Other/o.apk"),
        target: s("/tmp/w/system/app/Other/o.apk"),
        register_on_failure: true,
    }));
    let n = all.len();
    assert_eq!(all[n - 3], MountOp::MoveMount { from: s("/tmp/w/system/app"), to: s("/system/app") });
    assert_eq!(all[n - 1], MountOp::RegisterUnmountable { target: s("/system/app") });
}

#[test]
fn whiteout_over_real_file_is_absent() {
    let gone = node("toybox", NodeFileType::Whiteout, Some("/m/a/system/bin/toybox"), vec![]);
    let bin = node("bin", NodeFileType::Directory, Some("/m/a/system/bin"), vec![gone]);
    let system = node("system", NodeFileType::Directory, None, vec![bin]);
    let steps = magic_mount(&Some(root(vec![system])), &s("/tmp/w"), &base_snapshot(), false);
    assert_eq!(
        ops(&steps),
        vec![
            MountOp::MakeShadowDir { work: s("/tmp/w/system/bin"), source: s("/system/bin") },
            MountOp::BindSelf { work: s("/tmp/w/system/bin") },
            MountOp::CloneSymlink { source: s("/system/bin/sh"), target: s("/tmp/w/system/bin/sh") },
            MountOp::RemountReadOnly { target: s("/tmp/w/system/bin") },
            MountOp::MoveMount { from: s("/tmp/w/system/bin"), to: s("/system/bin") },
            MountOp::MakePrivate { target: s("/system/bin") },
        ]
    );
}

#[test]
fn whiteout_over_nothing_opens_no_shadow() {
    let gone = node("missing", NodeFileType::Whiteout, Some("/m/a/system/bin/missing"), vec![]);
    let bin = node("bin", NodeFileType::Directory, Some("/m/a/system/bin"), vec![gone]);
    let system = node("system", NodeFileType::Directory, None, vec![bin]);
    let steps = magic_mount(&Some(root(vec![system])), &s("/tmp/w"), &base_snapshot(), false);
    assert!(steps.is_empty());
}

#[test]
fn child_needing_shadow_under_sourceless_directory_is_skipped() {
    let link = node("newlink", NodeFileType::Symlink, Some("/m/a/system/newlink"), vec![]);
    let file = node("bin", NodeFileType::Directory, Some("/m/a/system/bin"), vec![
        node("toybox", NodeFileType::RegularFile, Some("/m/a/system/bin/toybox"), vec![]),
    ]);
    let system = node("system", NodeFileType::Directory, None, vec![link, file]);
    let steps = magic_mount(&Some(root(vec![system])), &s("/tmp/w"), &base_snapshot(), false);
    assert_eq!(
        ops(&steps),
        vec![
            MountOp::Bind {
                source: s("/m/a/system/bin/toybox"),
                target: s("/system/bin/toybox"),
                register_on_failure: false,
            },
            MountOp::RemountReadOnly { target: s("/system/bin/toybox") },
        ]
    );
}

#[test]
fn symlink_child_is_cloned_in_shadow() {
    let link = node("sh", NodeFileType::Symlink, Some("/m/a/system/bin/sh"), vec![]);
    let bin = node("bin", NodeFileType::Directory, Some("/m/a/system/bin"), vec![link]);
    let system = node("system", NodeFileType::Directory, None, vec![bin]);
    let steps = magic_mount(&Some(root(vec![system])), &s("/tmp/w"), &base_snapshot(), false);
    let all = ops(&steps);
    assert!(all.contains(&MountOp::CloneSymlink {
        source: s("/m/a/system/bin/sh"),
        target: s("/tmp/w/system/bin/sh"),
    }));
    assert!(all.contains(&MountOp::CreateFile { target: s("/tmp/w/system/bin/toybox") }));
}

#[test]
fn failures_found_while_planning() {
    // A symlink and a file with no module behind them.
    let mut bin = node("bin", NodeFileType::Directory, Some("/m/a/system/bin"), vec![
        node("sh", NodeFileType::Symlink, None, vec![]),
    ]);
    let steps = magic_mount(
        &Some(root(vec![node("system", NodeFileType::Directory, None, vec![bin])])),
        &s("/tmp/w"),
        &base_snapshot(),
        false,
    );
    assert!(ops(&steps).contains(&MountOp::Fail { path: s("/system/bin/sh"), reason: FailReason::RootSymlink }));

    bin = node("bin", NodeFileType::Directory, None, vec![node("toybox", NodeFileType::RegularFile, None, vec![])]);
    let steps = magic_mount(
        &Some(root(vec![node("system", NodeFileType::Directory, None, vec![bin])])),
        &s("/tmp/w"),
        &base_snapshot(),
        false,
    );
    assert_eq!(ops(&steps), vec![MountOp::Fail { path: s("/system/bin/toybox"), reason: FailReason::RootFile }]);
    assert_eq!(steps[0].unit, "/system/bin/toybox");
    assert!(!steps[0].fatal);

    // An opaque directory with no module behind it.
    let mut opaque = node("app", NodeFileType::Directory, None, vec![]);
    opaque.replace = true;
    let steps = magic_mount(
        &Some(root(vec![node("system", NodeFileType::Directory, None, vec![opaque])])),
        &s("/tmp/w"),
        &base_snapshot(),
        false,
    );
    assert_eq!(ops(&steps), vec![MountOp::Fail { path: s("/system/app"), reason: FailReason::ReplacedRoot }]);

    // A real directory that cannot be listed.
    let snap = vec![
        real_dir("/", vec![entry("system", EntryKind::Dir)]),
        RealDir { path: s("/system"), exists: true, entries: None },
    ];
    let steps = magic_mount(
        &Some(root(vec![node("system", NodeFileType::Directory, None, vec![])])),
        &s("/tmp/w"),
        &snap,
        false,
    );
    assert_eq!(ops(&steps), vec![MountOp::Fail { path: s("/system"), reason: FailReason::Unreadable }]);

    // A shadowed directory with neither a real path nor a module.
    let inner = node("deep", NodeFileType::Directory, None, vec![
        node("f", NodeFileType::RegularFile, Some("/m/a/system/app/new/deep/f"), vec![]),
    ]);
    let new_dir = node("new", NodeFileType::Directory, Some("/m/a/system/app/new"), vec![inner]);
    let app = node("app", NodeFileType::Directory, Some("/m/a/system/app"), vec![new_dir]);
    let steps = magic_mount(
        &Some(root(vec![node("system", NodeFileType::Directory, None, vec![app])])),
        &s("/tmp/w"),
        &base_snapshot(),
        false,
    );
    assert!(ops(&steps).contains(&MountOp::Fail { path: s("/system/app/new/deep"), reason: FailReason::RootDir }));
}

#[test]
fn root_failure_is_fatal() {
    let snap = vec![RealDir { path: s("/"), exists: true, entries: None }];
    let steps = magic_mount(&Some(root(vec![])), &s("/tmp/w"), &snap, false);
    assert_eq!(steps.len(), 1);
    assert!(steps[0].fatal);
    assert_eq!(steps[0].unit, "/");
}

#[test]
fn paths_and_mirrors() {
    assert_eq!(join_path(&s("/"), &s("system")), "/system");
    assert_eq!(join_path(&s("/system"), &s("bin")), "/system/bin");
    assert_eq!(join_path(&s("/tmp/w"), &s("")), "/tmp/w/");
    assert_eq!(
        mirror_entry(&s("/system"), &s("/w/system"), &entry("lib", EntryKind::Dir)),
        vec![MountOp::MirrorDir { path: s("/system/lib"), work: s("/w/system/lib") }]
    );
    assert_eq!(
        mirror_entry(&s("/system"), &s("/w/system"), &entry("l", EntryKind::Symlink)),
        vec![MountOp::CloneSymlink { source: s("/system/l"), target: s("/w/system/l") }]
    );
    assert!(mirror_entry(&s("/dev"), &s("/w/dev"), &entry("null", EntryKind::CharDevice)).is_empty());
    assert!(MountOp::RemountReadOnly { target: s("/x") }.best_effort());
    assert!(!MountOp::MoveMount { from: s("/a"), to: s("/b") }.best_effort());
}

#[test]
fn failures_abandon_their_unit() {
    let step = |op: MountOp, unit: &str, fatal: bool| Step { op, unit: unit.to_string(), fatal };
    let bind = step(MountOp::BindSelf { work: s("/w/a") }, "/a", false);
    let same = step(MountOp::MoveMount { from: s("/w/a"), to: s("/a") }, "/a", false);
    let other = step(MountOp::CreateFile { target: s("/w/b") }, "/b", false);
    let remount = step(MountOp::RemountReadOnly { target: s("/b") }, "/b", false);
    let root = step(MountOp::Fail { path: s("/"), reason: FailReason::Unreadable }, "/", true);
    let mut st = RunState::new();
    assert!(st.should_run(&bind));
    assert_eq!(st.fail(&bind), Failure::AbandonUnit);
    assert!(!st.should_run(&same));
    assert!(st.should_run(&other));
    assert!(st.abandoned.is_none());
    assert_eq!(st.fail(&remount), Failure::Reported);
    assert!(st.should_run(&other));
    assert_eq!(st.fail(&root), Failure::EndRun);
}
