use module_overlay::attr::FileAttr;
use module_overlay::deploy::deploy_modules;
use module_overlay::error::DeployError;
use module_overlay::mount::mirror;
use module_overlay::mount::mirror_untouched;
use module_overlay::mount::MountOp;
use module_overlay::node::Child;
use module_overlay::node::Node;
use module_overlay::node::NodeType;
use module_overlay::projection::ModuleInfo;
use module_overlay::snapshot::DirEntry;

fn attr() -> Option<FileAttr> {
    Some(FileAttr { mode: 0o100644, rdev: 0 })
}

fn file(name: &str) -> DirEntry {
    DirEntry { name: name.to_string(), is_dir: false, attr: attr(), entries: Vec::new() }
}

fn whiteout(name: &str) -> DirEntry {
    DirEntry {
        name: name.to_string(),
        is_dir: false,
        attr: Some(FileAttr { mode: 0o020000, rdev: 0 }),
        entries: Vec::new(),
    }
}

fn unreadable(name: &str) -> DirEntry {
    DirEntry { name: name.to_string(), is_dir: false, attr: None, entries: Vec::new() }
}

fn dir(name: &str, entries: Vec<DirEntry>) -> DirEntry {
    DirEntry {
        name: name.to_string(),
        is_dir: true,
        attr: Some(FileAttr { mode: 0o040755, rdev: 0 }),
        entries,
    }
}

fn module(name: &str, entries: Vec<DirEntry>) -> ModuleInfo {
    ModuleInfo { name: name.to_string(), entries }
}

fn bound(source: &str, exists: bool) -> Node {
    Node {
        node_type: NodeType::File { source_path: Some(source.to_string()) },
        target_attr: if exists { attr() } else { None },
    }
}

fn deleted() -> Node {
    Node { node_type: NodeType::File { source_path: None }, target_attr: attr() }
}

fn directory(children: Vec<(&str, Node)>, needs_synthetic: bool, replace: bool, exists: bool) -> Node {
    let children = children.into_iter().map(|(n, node)| Child { name: n.to_string(), node }).collect();
    Node {
        node_type: NodeType::Directory { children, needs_synthetic, replace },
        target_attr: if exists { Some(FileAttr { mode: 0o040755, rdev: 0 }) } else { None },
    }
}

fn show(ops: &Vec<MountOp>) -> Vec<String> {
    ops.iter().map(|op| format!("{:?}", op)).collect()
}

fn synthetic(path: &str) -> String {
    format!("{:?}", MountOp::CreateSyntheticDirectory { path: path.to_string() })
}

fn mkdir(path: &str) -> String {
    format!("{:?}", MountOp::CreateDirectory { path: path.to_string() })
}

fn bind(source: &str, dest: &str) -> String {
    format!("{:?}", MountOp::BindMount { source: source.to_string(), dest: dest.to_string() })
}

fn remove(dest: &str) -> String {
    format!("{:?}", MountOp::RemoveOrHide { dest: dest.to_string() })
}

#[test]
fn file_nodes_bind_or_remove() {
    let ops = bound("/m/a", true).do_mount("/system/a", false, None).unwrap();
    assert_eq!(show(&ops), vec![bind("/m/a", "/system/a")]);
    let ops = deleted().do_mount("/system/a", true, None).unwrap();
    assert_eq!(show(&ops), vec![remove("/system/a")]);
}

#[test]
fn mirror_directory_takes_no_action_itself() {
    let target = dir("etc", vec![file("hosts"), file("passwd")]);
    let node = directory(vec![("hosts", bound("/m/hosts", true))], false, false, true);
    let ops = node.do_mount("/system/etc", false, Some(&target)).unwrap();
    assert_eq!(show(&ops), vec![bind("/m/hosts", "/system/etc/hosts")]);
    let ops = node.do_mount("/system/etc", true, Some(&target)).unwrap();
    assert_eq!(show(&ops), vec![bind("/m/hosts", "/system/etc/hosts")]);
    let empty = directory(Vec::new(), false, false, true);
    assert!(empty.do_mount("/system/etc", false, Some(&target)).unwrap().is_empty());
}

#[test]
fn synthetic_root_passes_through_in_pre_order() {
    let target = dir(
        "etc",
        vec![
            file("passwd"),
            dir("init", vec![file("a.rc"), dir("hw", vec![file("b.rc")]), file("c.rc")]),
            file("hosts"),
            dir("empty", Vec::new()),
        ],
    );
    let node = directory(vec![("hosts", deleted())], true, false, true);
    let ops = node.do_mount("/system/etc", false, Some(&target)).unwrap();
    let expected = vec![
        synthetic("/system/etc"),
        bind("/system/etc/passwd", "/system/etc/passwd"),
        mkdir("/system/etc/init"),
        bind("/system/etc/init/a.rc", "/system/etc/init/a.rc"),
        mkdir("/system/etc/init/hw"),
        bind("/system/etc/init/hw/b.rc", "/system/etc/init/hw/b.rc"),
        bind("/system/etc/init/c.rc", "/system/etc/init/c.rc"),
        mkdir("/system/etc/empty"),
        remove("/system/etc/hosts"),
    ];
    assert_eq!(show(&ops), expected);
}

#[test]
fn synthetic_child_is_created_at_its_node_and_walks_its_own_level() {
    let target = dir("etc", vec![dir("init", vec![file("a.rc")]), file("hosts"), file("passwd")]);
    let init = directory(vec![("new.rc", bound("/m/new.rc", false))], true, false, true);
    let node = directory(vec![("hosts", bound("/m/hosts", true)), ("init", init)], true, false, true);
    let ops = node.do_mount("/system/etc", false, Some(&target)).unwrap();
    let expected = vec![
        synthetic("/system/etc"),
        bind("/system/etc/passwd", "/system/etc/passwd"),
        bind("/m/hosts", "/system/etc/hosts"),
        mkdir("/system/etc/init"),
        bind("/system/etc/init/a.rc", "/system/etc/init/a.rc"),
        bind("/m/new.rc", "/system/etc/init/new.rc"),
    ];
    assert_eq!(show(&ops), expected);
}

#[test]
fn mirror_directory_under_synthetic_parent_passes_through() {
    let target = dir("etc", vec![file("hosts"), dir("init", vec![file("a.rc"), file("b.rc")])]);
    let init = directory(vec![("a.rc", bound("/m/a.rc", true))], false, false, true);
    let node = directory(vec![("hosts", deleted()), ("init", init)], true, false, true);
    let ops = node.do_mount("/system/etc", false, Some(&target)).unwrap();
    let expected = vec![
        synthetic("/system/etc"),
        mkdir("/system/etc/init"),
        bind("/system/etc/init/b.rc", "/system/etc/init/b.rc"),
        remove("/system/etc/hosts"),
        bind("/m/a.rc", "/system/etc/init/a.rc"),
    ];
    assert_eq!(show(&ops), expected);
}

#[test]
fn file_node_overrides_a_target_directory() {
    let target = dir("etc", vec![dir("init", vec![file("a.rc")])]);
    let node = directory(vec![("init", bound("/m/init", true)), ("x", deleted())], true, false, true);
    let ops = node.do_mount("/system/etc", false, Some(&target)).unwrap();
    let expected = vec![synthetic("/system/etc"), bind("/m/init", "/system/etc/init"), remove("/system/etc/x")];
    assert_eq!(show(&ops), expected);
}

#[test]
fn directory_node_overrides_a_target_file() {
    let target = dir("etc", vec![file("init")]);
    let init = directory(vec![("a.rc", bound("/m/a.rc", false))], true, false, true);
    let node = directory(vec![("init", init)], true, false, true);
    let ops = node.do_mount("/system/etc", false, Some(&target)).unwrap();
    let expected = vec![
        synthetic("/system/etc"),
        mkdir("/system/etc/init"),
        bind("/m/a.rc", "/system/etc/init/a.rc"),
    ];
    assert_eq!(show(&ops), expected);
}

#[test]
fn synthetic_under_synthetic_is_a_plain_directory() {
    let node = directory(vec![("x", bound("/m/x", false))], true, false, false);
    let ops = node.do_mount("/system/new", true, None).unwrap();
    assert_eq!(show(&ops), vec![mkdir("/system/new"), bind("/m/x", "/system/new/x")]);
}

#[test]
fn synthetic_child_over_a_target_directory_is_created_once() {
    let target = dir("init", vec![file("a.rc")]);
    let node = directory(vec![("x", bound("/m/x", false))], true, false, true);
    let ops = node.do_mount("/system/etc/init", true, Some(&target)).unwrap();
    let expected = vec![
        mkdir("/system/etc/init"),
        bind("/system/etc/init/a.rc", "/system/etc/init/a.rc"),
        bind("/m/x", "/system/etc/init/x"),
    ];
    assert_eq!(show(&ops), expected);
}

#[test]
fn replaced_directory_below_a_synthetic_one_hides_the_target() {
    let target = dir(
        "etc",
        vec![dir("init", vec![file("a.rc"), dir("hw", vec![file("b.rc")])]), file("hosts")],
    );
    let hw = directory(vec![("c.rc", bound("/m/c.rc", false))], true, false, true);
    let init = directory(vec![("hw", hw)], true, true, true);
    let node = directory(vec![("init", init)], true, false, true);
    let ops = node.do_mount("/system/etc", false, Some(&target)).unwrap();
    let expected = vec![
        synthetic("/system/etc"),
        bind("/system/etc/hosts", "/system/etc/hosts"),
        mkdir("/system/etc/init"),
        mkdir("/system/etc/init/hw"),
        bind("/m/c.rc", "/system/etc/init/hw/c.rc"),
    ];
    assert_eq!(show(&ops), expected);
}

#[test]
fn synthetic_root_that_cannot_be_opened_fails() {
    let node = directory(vec![("x", bound("/m/x", false))], true, false, false);
    match node.do_mount("/system/new", false, None) {
        Err(DeployError::DirectoryOpen { path }) => assert_eq!(path, "/system/new"),
        other => panic!("unexpected {:?}", other),
    }
    let not_a_directory = file("new");
    match node.do_mount("/system/new", false, Some(&not_a_directory)) {
        Err(e) => assert_eq!(e.message(), "cannot open directory /system/new"),
        other => panic!("unexpected {:?}", other),
    }
}

#[test]
fn replaced_directory_lets_nothing_through_and_opens_nothing() {
    let target = dir("app", vec![dir("Calendar", vec![file("Calendar.apk")]), file("list")]);
    let node = directory(vec![("Mine", bound("/m/Mine", false))], true, true, true);
    let ops = node.do_mount("/system/app", false, Some(&target)).unwrap();
    assert_eq!(show(&ops), vec![synthetic("/system/app"), bind("/m/Mine", "/system/app/Mine")]);
    let ops = node.do_mount("/system/app", false, None).unwrap();
    assert_eq!(show(&ops), vec![synthetic("/system/app"), bind("/m/Mine", "/system/app/Mine")]);
}

#[test]
fn first_failing_child_ends_the_plan() {
    let broken_a = directory(Vec::new(), true, false, false);
    let broken_b = directory(Vec::new(), true, false, false);
    let node = directory(
        vec![("a", bound("/m/a", true)), ("b", broken_a), ("c", broken_b)],
        false,
        false,
        true,
    );
    let target = dir("system", vec![file("a")]);
    match node.do_mount("/system", false, Some(&target)) {
        Err(DeployError::DirectoryOpen { path }) => assert_eq!(path, "/system/b"),
        other => panic!("unexpected {:?}", other),
    }
}

#[test]
fn mount_never_makes_the_root_synthetic() {
    let target = dir("system", vec![file("build.prop"), dir("etc", vec![file("hosts")])]);
    let etc = directory(vec![("hosts", deleted())], true, false, true);
    let mut root = directory(vec![("etc", etc), ("new", bound("/m/new", false))], true, true, true);
    let ops = root.mount("/system", Some(&target)).unwrap();
    assert!(!root.needs_synthetic());
    assert!(root.is_replaced());
    let expected = vec![
        synthetic("/system/etc"),
        remove("/system/etc/hosts"),
        bind("/m/new", "/system/new"),
    ];
    assert_eq!(show(&ops), expected);
}

#[test]
fn mount_leaves_a_file_node_as_it_is() {
    let mut node = bound("/m/a", true);
    let ops = node.mount("/system", None).unwrap();
    assert_eq!(show(&ops), vec![bind("/m/a", "/system")]);
    assert!(!node.is_directory());
}

#[test]
fn mirror_recreates_directories_and_binds_files() {
    let mut ops = vec![MountOp::RemoveOrHide { dest: "/x".to_string() }];
    mirror("/system/etc", &dir("init", vec![file("a.rc")]), &mut ops);
    mirror("/system/etc/", &file("hosts"), &mut ops);
    let expected = vec![
        remove("/x"),
        mkdir("/system/etc/init"),
        bind("/system/etc/init/a.rc", "/system/etc/init/a.rc"),
        bind("/system/etc/hosts", "/system/etc/hosts"),
    ];
    assert_eq!(show(&ops), expected);
}

#[test]
fn mirror_untouched_leaves_out_what_children_override() {
    let listing = vec![file("a"), file("b"), dir("c", vec![file("d"), file("e")]), dir("f", vec![file("g")])];
    let children = vec![
        Child { name: "b".to_string(), node: deleted() },
        Child {
            name: "c".to_string(),
            node: directory(vec![("e", bound("/m/e", true))], false, false, true),
        },
        Child { name: "f".to_string(), node: directory(Vec::new(), true, true, true) },
    ];
    let mut ops = Vec::new();
    mirror_untouched("/t", &listing, &children, &mut ops);
    assert_eq!(show(&ops), vec![bind("/t/a", "/t/a"), mkdir("/t/c"), bind("/t/c/d", "/t/c/d")]);
}

#[test]
fn deploy_overlays_several_modules() {
    let root = dir(
        "",
        vec![dir(
            "system",
            vec![
                dir("bin", vec![file("ls"), file("sh")]),
                dir("etc", vec![file("hosts"), file("passwd")]),
                file("build.prop"),
            ],
        )],
    );
    let modules = vec![
        module("low", vec![dir("system", vec![dir("bin", vec![file("sh"), file("tool")]), file("build.prop")])]),
        module("high", vec![dir("system", vec![dir("etc", vec![whiteout("hosts")]), dir("bin", vec![file("sh")])])]),
    ];
    let ops = deploy_modules(true, "/m", &modules, &root).unwrap();
    let expected = vec![
        synthetic("/system/bin"),
        bind("/system/bin/ls", "/system/bin/ls"),
        bind("/m/high/system/bin/sh", "/system/bin/sh"),
        bind("/m/low/system/bin/tool", "/system/bin/tool"),
        bind("/m/low/system/build.prop", "/system/build.prop"),
        synthetic("/system/etc"),
        bind("/system/etc/passwd", "/system/etc/passwd"),
        remove("/system/etc/hosts"),
    ];
    assert_eq!(show(&ops), expected);
    let again = deploy_modules(false, "/m", &modules, &root).unwrap();
    assert_eq!(show(&again), expected);
}

#[test]
fn deploy_without_modules_plans_nothing() {
    let root = dir("", vec![dir("system", vec![file("build.prop")])]);
    let ops = deploy_modules(false, "/m", &Vec::new(), &root).unwrap();
    assert!(ops.is_empty());
    let bare = vec![module("bare", vec![file("module.prop")])];
    assert!(deploy_modules(false, "/m", &bare, &root).unwrap().is_empty());
}

#[test]
fn deploy_reports_failed_probe() {
    let root = dir("", vec![dir("system", vec![file("build.prop")])]);
    let modules = vec![module("m", vec![dir("system", vec![unreadable("build.prop")])])];
    match deploy_modules(false, "/m", &modules, &root) {
        Err(DeployError::AttrProbe { path }) => assert_eq!(path, "/m/m/system/build.prop"),
        other => panic!("unexpected {:?}", other),
    }
}

#[test]
fn deploy_reports_directory_that_cannot_be_opened() {
    let root = dir("", vec![dir("system", vec![file("build.prop")])]);
    let modules = vec![module("m", vec![dir("system", vec![dir("fresh", vec![file("x")])])])];
    match deploy_modules(false, "/m", &modules, &root) {
        Err(DeployError::DirectoryOpen { path }) => assert_eq!(path, "/system/fresh"),
        other => panic!("unexpected {:?}", other),
    }
}

#[test]
fn deploy_fails_on_unreadable_mount_root() {
    let mut system = dir("system", vec![file("build.prop")]);
    system.attr = None;
    let root = dir("", vec![system]);
    match deploy_modules(false, "/m", &Vec::new(), &root) {
        Err(DeployError::AttrProbe { path }) => assert_eq!(path, "/system"),
        other => panic!("unexpected {:?}", other),
    }
}
