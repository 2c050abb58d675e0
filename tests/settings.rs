use magic_mount::builder::{ModuleCandidate, PartitionDir, PropFile};
use magic_mount::config::{default_logfile, default_moduledir, default_mountsource, Config};
use magic_mount::node::ModuleDir;
use magic_mount::scanner::{read_prop, scan_modules};
use magic_mount::utils::{select_temp_dir, tmpfs_candidates, TempDirError, TmpfsCandidate};

#[test]
fn defaults() {
    let c = Config::default();
    assert_eq!(c.moduledir, "/data/adb/modules/");
    assert_eq!(c.mountsource, "MaGIcMounT");
    assert_eq!(c.logfile, "/data/adb/magic_mount/mm.log");
    assert!(c.tempdir.is_none() && !c.verbose && c.partitions.is_empty() && !c.umount);
    assert_eq!(default_moduledir(), c.moduledir);
    assert_eq!(default_mountsource(), c.mountsource);
    assert_eq!(default_logfile(), c.logfile);
}

#[test]
fn command_line_overrides_settings() {
    let mut c = Config::default();
    c.verbose = true;
    c.partitions = vec!["my_stock".to_string()];
    c.merge_with_cli(Some("/mods".to_string()), None, Some("KSU".to_string()), None, false, vec![]);
    assert_eq!(c.moduledir, "/mods");
    assert!(c.tempdir.is_none());
    assert_eq!(c.mountsource, "KSU");
    assert_eq!(c.logfile, "/data/adb/magic_mount/mm.log");
    assert!(c.verbose);
    assert_eq!(c.partitions, vec!["my_stock".to_string()]);
    c.merge_with_cli(None, Some("/dev/tmp".to_string()), None, Some("/l".to_string()), true, vec!["a".to_string()]);
    assert_eq!(c.tempdir.as_deref(), Some("/dev/tmp"));
    assert_eq!(c.logfile, "/l");
    assert_eq!(c.partitions, vec!["a".to_string()]);
}

fn cand(path: &str, exists: bool, empty: bool) -> TmpfsCandidate {
    TmpfsCandidate { path: path.to_string(), exists, empty }
}

#[test]
fn temp_dir_is_first_existing_empty_candidate() {
    let c = vec![cand("/debug_ramdisk", false, true), cand("/patch_hw", true, false), cand("/oem", true, true), cand("/root", true, true)];
    assert_eq!(select_temp_dir(&c).unwrap(), "/oem");
    let none = vec![cand("/a", false, true), cand("/b", true, false)];
    assert!(matches!(select_temp_dir(&none), Err(TempDirError::NoneUsable)));
    assert!(select_temp_dir(&vec![]).is_err());
    assert_eq!(
        tmpfs_candidates(),
        vec!["/debug_ramdisk", "/patch_hw", "/oem", "/root", "/sbin"]
    );
}

#[test]
fn metadata_values() {
    let text = "id=demo\nname=  Demo Module \r\nversion=v1=2\nauthor\ndescription=";
    assert_eq!(read_prop(text, "name").as_deref(), Some("Demo Module"));
    assert_eq!(read_prop(text, "version").as_deref(), Some("v1=2"));
    assert_eq!(read_prop(text, "author"), None);
    assert_eq!(read_prop(text, "description").as_deref(), Some(""));
    assert_eq!(read_prop(text, "missing"), None);
    assert_eq!(read_prop("identity=1\nid=x", "id").as_deref(), Some("1"));
}

fn candidate(id: &str, prop: PropFile, part: &str) -> ModuleCandidate {
    ModuleCandidate {
        name: id.to_string(),
        is_dir: true,
        prop,
        disabled: false,
        removed: false,
        skip_mount: false,
        partitions: vec![PartitionDir {
            name: part.to_string(),
            exists: true,
            is_dir: true,
            dir: ModuleDir { path: format!("/m/{id}/{part}"), entries: Some(vec![]) },
        }],
    }
}

#[test]
fn listing_shows_mountable_modules() {
    let a = candidate("alpha", PropFile::Text("name=Alpha\nversion=2\n".to_string()), "system");
    let b = candidate("beta", PropFile::Text("author=me".to_string()), "odm");
    let c = candidate("gamma", PropFile::Text("name=G".to_string()), "vendor");
    let mut d = candidate("delta", PropFile::Text("name=D".to_string()), "system");
    d.skip_mount = true;
    let e = candidate("eps", PropFile::Unreadable, "system");
    let list = scan_modules(&vec![a, b, c, d, e]);
    assert_eq!(list.len(), 2);
    assert_eq!(list[0].id, "alpha");
    assert_eq!(list[0].name, "Alpha");
    assert_eq!(list[0].version, "2");
    assert_eq!(list[0].author, "unknown");
    assert_eq!(list[1].id, "beta");
    assert_eq!(list[1].name, "beta");
    assert_eq!(list[1].author, "me");
    assert_eq!(list[1].description, "unknown");
}
