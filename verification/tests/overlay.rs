use module_overlay::attr::FileAttr;
use module_overlay::deploy::deploy_modules;
use module_overlay::error::DeployError;
use module_overlay::mount::MountOp;
use module_overlay::node::Node;
use module_overlay::node::NodeType;
use module_overlay::projection::ModuleInfo;
use module_overlay::projection::ModuleIterator;
use module_overlay::snapshot::lookup;
use module_overlay::snapshot::DirEntry;
use module_overlay::tree::tree_module;

const ROOT: &str = "/data/adb/modules";

fn file(name: &str) -> DirEntry {
    DirEntry {
        name: name.to_string(),
        is_dir: false,
        attr: Some(FileAttr { mode: 0o100644, rdev: 0 }),
        entries: Vec::new(),
    }
}

fn whiteout(name: &str) -> DirEntry {
    DirEntry {
        name: name.to_string(),
        is_dir: false,
        attr: Some(FileAttr { mode: 0o020000, rdev: 0 }),
        entries: Vec::new(),
    }
}

fn dir(name: &str, entries: Vec<DirEntry>) -> DirEntry {
    DirEntry {
        name: name.to_string(),
        is_dir: true,
        attr: Some(FileAttr { mode: 0o040755, rdev: 0 }),
        entries,
    }
}

fn module(name: &str, entries: Vec<DirEntry>) -> ModuleInfo {
    ModuleInfo { name: name.to_string(), entries }
}

fn target_root() -> DirEntry {
    dir(
        "",
        vec![dir(
            "system",
            vec![
                dir("app", vec![dir("Calendar", vec![file("Calendar.apk")])]),
                dir("bin", vec![file("ls"), file("sh")]),
                dir("etc", vec![file("hosts"), file("passwd")]),
                dir("lib", vec![file("libc.so")]),
            ],
        )],
    )
}

fn build(modules: &Vec<ModuleInfo>, root: &DirEntry) -> Result<Node, DeployError> {
    let mut it = ModuleIterator::from_modules(ROOT, modules, "system");
    tree_module("/", lookup(Some(root), "system"), &mut it)
}

fn create_synthetic(path: &str) -> MountOp {
    MountOp::CreateSyntheticDirectory { path: path.to_string() }
}

fn bind(source: &str, dest: &str) -> MountOp {
    MountOp::BindMount { source: source.to_string(), dest: dest.to_string() }
}

fn remove(dest: &str) -> MountOp {
    MountOp::RemoveOrHide { dest: dest.to_string() }
}

fn show(ops: &Vec<MountOp>) -> Vec<String> {
    ops.iter().map(|op| format!("{:?}", op)).collect()
}

#[test]
fn new_file_makes_its_directory_synthetic() {
    let modules = vec![module("foo", vec![dir("system", vec![dir("bin", vec![file("busybox")])])])];
    let root = target_root();
    let tree = build(&modules, &root).unwrap();
    let bin = tree.child("bin").unwrap();
    assert!(bin.needs_synthetic());
    let busybox = bin.child("busybox").unwrap();
    assert!(busybox.target_attr.is_none());
    match &busybox.node_type {
        NodeType::File { source_path } => {
            assert_eq!(source_path.as_deref(), Some("/data/adb/modules/foo/system/bin/busybox"))
        }
        NodeType::Directory { .. } => panic!("busybox is a file"),
    }
    let ops = deploy_modules(false, ROOT, &modules, &root).unwrap();
    let expected = vec![
        create_synthetic("/system/bin"),
        bind("/system/bin/ls", "/system/bin/ls"),
        bind("/system/bin/sh", "/system/bin/sh"),
        bind("/data/adb/modules/foo/system/bin/busybox", "/system/bin/busybox"),
    ];
    assert_eq!(show(&ops), show(&expected));
}

#[test]
fn whiteout_removes_the_target_file() {
    let modules = vec![module("bar", vec![dir("system", vec![dir("etc", vec![whiteout("hosts")])])])];
    let root = target_root();
    let tree = build(&modules, &root).unwrap();
    let etc = tree.child("etc").unwrap();
    assert!(etc.needs_synthetic());
    let hosts = etc.child("hosts").unwrap();
    assert!(hosts.is_deletion());
    assert!(hosts.target_attr.is_some());
    let ops = deploy_modules(false, ROOT, &modules, &root).unwrap();
    let expected = vec![
        create_synthetic("/system/etc"),
        bind("/system/etc/passwd", "/system/etc/passwd"),
        remove("/system/etc/hosts"),
    ];
    assert_eq!(show(&ops), show(&expected));
}

#[test]
fn replace_marker_hides_what_the_target_holds() {
    let modules = vec![module("baz", vec![dir("system", vec![dir("app", vec![file(".replace")])])])];
    let root = target_root();
    let tree = build(&modules, &root).unwrap();
    let app = tree.child("app").unwrap();
    assert!(app.needs_synthetic());
    assert!(app.is_replaced());
    assert!(app.target_attr.is_some());
    match &app.node_type {
        NodeType::Directory { children, .. } => assert!(children.is_empty()),
        NodeType::File { .. } => panic!("app is a directory"),
    }
    let ops = deploy_modules(false, ROOT, &modules, &root).unwrap();
    let expected = vec![create_synthetic("/system/app")];
    assert_eq!(show(&ops), show(&expected));
}

#[test]
fn lower_module_contributes_below_a_shared_directory() {
    let modules = vec![
        module("m2", vec![dir("system", vec![dir("lib", vec![file("libfoo.so")])])]),
        module("m1", vec![dir("system", vec![dir("lib", vec![file("libbar.so")])])]),
    ];
    let root = target_root();
    let tree = build(&modules, &root).unwrap();
    let lib = tree.child("lib").unwrap();
    let foo = lib.child("libfoo.so").unwrap();
    match &foo.node_type {
        NodeType::File { source_path } => {
            assert_eq!(source_path.as_deref(), Some("/data/adb/modules/m2/system/lib/libfoo.so"))
        }
        NodeType::Directory { .. } => panic!("libfoo.so is a file"),
    }
    let bar = lib.child("libbar.so").unwrap();
    match &bar.node_type {
        NodeType::File { source_path } => {
            assert_eq!(source_path.as_deref(), Some("/data/adb/modules/m1/system/lib/libbar.so"))
        }
        NodeType::Directory { .. } => panic!("libbar.so is a file"),
    }
}

#[test]
fn only_the_removal_lands_on_a_deleted_path() {
    let root = dir(
        "",
        vec![dir(
            "system",
            vec![dir("etc", vec![file("hosts"), file("hosts.bak"), dir("init", vec![file("hosts")])])],
        )],
    );
    let modules = vec![
        module("low", vec![dir("system", vec![dir("etc", vec![file("hosts"), file("extra")])])]),
        module("high", vec![dir("system", vec![dir("etc", vec![whiteout("hosts")])])]),
    ];
    let ops = deploy_modules(false, ROOT, &modules, &root).unwrap();
    let landing: Vec<String> = ops
        .iter()
        .filter(|op| match op {
            MountOp::CreateSyntheticDirectory { path } => path == "/system/etc/hosts",
            MountOp::CreateDirectory { path } => path == "/system/etc/hosts",
            MountOp::BindMount { dest, .. } => dest == "/system/etc/hosts",
            MountOp::RemoveOrHide { dest } => dest == "/system/etc/hosts",
        })
        .map(|op| format!("{:?}", op))
        .collect();
    assert_eq!(landing, show(&vec![remove("/system/etc/hosts")]));
    let expected = vec![
        create_synthetic("/system/etc"),
        bind("/system/etc/hosts.bak", "/system/etc/hosts.bak"),
        MountOp::CreateDirectory { path: "/system/etc/init".to_string() },
        bind("/system/etc/init/hosts", "/system/etc/init/hosts"),
        bind("/data/adb/modules/low/system/etc/extra", "/system/etc/extra"),
        remove("/system/etc/hosts"),
    ];
    assert_eq!(show(&ops), show(&expected));
}
