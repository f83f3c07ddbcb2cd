use module_overlay::attr::FileAttr;
use module_overlay::error::DeployError;
use module_overlay::node::any_child_demands;
use module_overlay::node::has_child;
use module_overlay::node::insert;
use module_overlay::node::Child;
use module_overlay::node::Node;
use module_overlay::node::NodeType;
use module_overlay::projection::ModuleInfo;
use module_overlay::projection::ModuleIterator;
use module_overlay::snapshot::lookup;
use module_overlay::snapshot::DirEntry;
use module_overlay::tree::probe;
use module_overlay::tree::tree_module;

fn file(name: &str) -> DirEntry {
    DirEntry {
        name: name.to_string(),
        is_dir: false,
        attr: Some(FileAttr { mode: 0o100644, rdev: 0 }),
        entries: Vec::new(),
    }
}

fn special(name: &str, mode: u32, rdev: u64) -> DirEntry {
    DirEntry { name: name.to_string(), is_dir: false, attr: Some(FileAttr { mode, rdev }), entries: Vec::new() }
}

fn unreadable(name: &str) -> DirEntry {
    DirEntry { name: name.to_string(), is_dir: false, attr: None, entries: Vec::new() }
}

fn dir(name: &str, entries: Vec<DirEntry>) -> DirEntry {
    DirEntry {
        name: name.to_string(),
        is_dir: true,
        attr: Some(FileAttr { mode: 0o040755, rdev: 0 }),
        entries,
    }
}

fn module(name: &str, entries: Vec<DirEntry>) -> ModuleInfo {
    ModuleInfo { name: name.to_string(), entries }
}

fn target_root() -> DirEntry {
    dir(
        "",
        vec![dir(
            "system",
            vec![
                dir("bin", vec![file("ls")]),
                dir("etc", vec![file("hosts"), dir("init", vec![file("boot.rc")])]),
                file("build.prop"),
            ],
        )],
    )
}

fn build(modules: &Vec<ModuleInfo>, root: &DirEntry) -> Result<Node, DeployError> {
    let mut it = ModuleIterator::from_modules("/m", modules, "system");
    tree_module("/", lookup(Some(root), "system"), &mut it)
}

fn source(node: &Node) -> Option<String> {
    match &node.node_type {
        NodeType::File { source_path } => source_path.clone(),
        NodeType::Directory { .. } => panic!("not a file"),
    }
}

fn child_names(node: &Node) -> Vec<String> {
    match &node.node_type {
        NodeType::Directory { children, .. } => children.iter().map(|c| c.name.clone()).collect(),
        NodeType::File { .. } => panic!("not a directory"),
    }
}

fn leaf(source_path: Option<&str>, exists: bool) -> Node {
    Node {
        node_type: NodeType::File { source_path: source_path.map(|s| s.to_string()) },
        target_attr: if exists { Some(FileAttr { mode: 0o100644, rdev: 0 }) } else { None },
    }
}

#[test]
fn untouched_overlay_stays_a_mirror() {
    let modules = vec![module("m", vec![dir("system", vec![dir("bin", vec![file("ls")]), file("build.prop")])])];
    let tree = build(&modules, &target_root()).unwrap();
    assert!(tree.is_directory());
    assert!(!tree.needs_synthetic());
    assert!(!tree.is_replaced());
    assert!(tree.target_attr.is_some());
    let bin = tree.child("bin").unwrap();
    assert!(!bin.needs_synthetic());
    assert!(!bin.demands_synthetic());
    let ls = bin.child("ls").unwrap();
    assert!(!ls.is_directory());
    assert!(!ls.is_deletion());
    assert_eq!(source(ls), Some("/m/m/system/bin/ls".to_string()));
    assert_eq!(ls.target_attr, Some(FileAttr { mode: 0o100644, rdev: 0 }));
}

#[test]
fn children_stand_in_name_order() {
    let modules = vec![
        module("low", vec![dir("system", vec![file("zeta"), file("alpha")])]),
        module("high", vec![dir("system", vec![file("mid"), file("Beta"), file("alpha2")])]),
    ];
    let tree = build(&modules, &target_root()).unwrap();
    assert_eq!(child_names(&tree), vec!["Beta", "alpha", "alpha2", "mid", "zeta"]);
}

#[test]
fn higher_module_wins_a_file() {
    let modules = vec![
        module("m2", vec![dir("system", vec![dir("a", vec![file("b")])])]),
        module("m1", vec![dir("system", vec![dir("a", vec![file("b")])])]),
    ];
    let tree = build(&modules, &target_root()).unwrap();
    let b = tree.child("a").unwrap().child("b").unwrap();
    assert_eq!(source(b), Some("/m/m1/system/a/b".to_string()));
}

#[test]
fn deletion_in_higher_module_wins_over_lower_content() {
    let modules = vec![
        module("low", vec![dir("system", vec![dir("etc", vec![file("hosts")])])]),
        module("high", vec![dir("system", vec![dir("etc", vec![special("hosts", 0o020000, 0)])])]),
    ];
    let tree = build(&modules, &target_root()).unwrap();
    let hosts = tree.child("etc").unwrap().child("hosts").unwrap();
    assert!(hosts.is_deletion());
    assert_eq!(source(hosts), None);
    assert!(tree.child("etc").unwrap().needs_synthetic());
    assert!(tree.needs_synthetic());
}

#[test]
fn deletion_in_lower_module_loses_to_higher_content() {
    let modules = vec![
        module("low", vec![dir("system", vec![dir("etc", vec![special("hosts", 0o020000, 0)])])]),
        module("high", vec![dir("system", vec![dir("etc", vec![file("hosts")])])]),
    ];
    let tree = build(&modules, &target_root()).unwrap();
    let hosts = tree.child("etc").unwrap().child("hosts").unwrap();
    assert!(!hosts.is_deletion());
    assert_eq!(source(hosts), Some("/m/high/system/etc/hosts".to_string()));
    assert!(!tree.child("etc").unwrap().needs_synthetic());
}

#[test]
fn char_device_with_device_number_is_bound() {
    let modules = vec![module("m", vec![dir("system", vec![dir("etc", vec![special("hosts", 0o020000, 261)])])])];
    let tree = build(&modules, &target_root()).unwrap();
    let hosts = tree.child("etc").unwrap().child("hosts").unwrap();
    assert!(!hosts.is_deletion());
    assert_eq!(source(hosts), Some("/m/m/system/etc/hosts".to_string()));
}

#[test]
fn missing_target_deep_down_reaches_the_top() {
    let modules = vec![module(
        "m",
        vec![dir("system", vec![dir("etc", vec![dir("init", vec![file("new.rc")])]), dir("bin", vec![file("ls")])])],
    )];
    let tree = build(&modules, &target_root()).unwrap();
    let etc = tree.child("etc").unwrap();
    let init = etc.child("init").unwrap();
    assert!(init.child("new.rc").unwrap().target_attr.is_none());
    assert!(init.needs_synthetic());
    assert!(etc.needs_synthetic());
    assert!(tree.needs_synthetic());
    assert!(!tree.child("bin").unwrap().needs_synthetic());
}

#[test]
fn missing_directory_needs_synthetic() {
    let modules = vec![module("m", vec![dir("system", vec![dir("priv-app", Vec::new())])])];
    let tree = build(&modules, &target_root()).unwrap();
    let p = tree.child("priv-app").unwrap();
    assert!(p.target_attr.is_none());
    assert!(p.needs_synthetic());
    assert!(tree.needs_synthetic());
}

#[test]
fn missing_mount_root_needs_synthetic() {
    let modules = vec![module("m", vec![dir("system", Vec::new())])];
    let mut it = ModuleIterator::from_modules("/m", &modules, "system");
    let tree = tree_module("/", None, &mut it).unwrap();
    assert!(tree.target_attr.is_none());
    assert!(tree.needs_synthetic());
    assert!(child_names(&tree).is_empty());
}

#[test]
fn path_below_a_target_file_does_not_exist() {
    let modules = vec![module("m", vec![dir("system", vec![dir("build.prop", vec![file("x")])])])];
    let tree = build(&modules, &target_root()).unwrap();
    let d = tree.child("build.prop").unwrap();
    assert!(d.target_attr.is_some());
    assert!(d.child("x").unwrap().target_attr.is_none());
    assert!(d.needs_synthetic());
}

#[test]
fn replace_marker_gives_no_child_and_forces_synthetic() {
    let modules = vec![
        module("low", vec![dir("system", vec![dir("bin", vec![file("ls")])])]),
        module("high", vec![dir("system", vec![dir("bin", vec![file(".replace")])])]),
    ];
    let tree = build(&modules, &target_root()).unwrap();
    let bin = tree.child("bin").unwrap();
    assert!(bin.needs_synthetic());
    assert!(bin.is_replaced());
    assert!(bin.child(".replace").is_none());
    assert_eq!(child_names(bin), vec!["ls"]);
    assert!(!tree.is_replaced());
    assert!(tree.needs_synthetic());
}

#[test]
fn replace_marker_may_be_any_kind_of_entry() {
    let modules = vec![module(
        "m",
        vec![dir("system", vec![dir("bin", vec![dir(".replace", vec![unreadable("x")])]), dir("etc", vec![unreadable(".replace")])])],
    )];
    let tree = build(&modules, &target_root()).unwrap();
    assert!(tree.child("bin").unwrap().is_replaced());
    assert!(child_names(tree.child("bin").unwrap()).is_empty());
    assert!(tree.child("etc").unwrap().is_replaced());
}

#[test]
fn failed_probe_of_a_winner_ends_the_build() {
    let modules = vec![
        module("low", vec![dir("system", vec![file("a")])]),
        module("high", vec![dir("system", vec![dir("etc", vec![unreadable("hosts")])])]),
    ];
    match build(&modules, &target_root()) {
        Err(DeployError::AttrProbe { path }) => assert_eq!(path, "/m/high/system/etc/hosts"),
        other => panic!("unexpected {:?}", other.map(|_| ())),
    }
}

#[test]
fn first_failed_probe_is_reported() {
    let modules = vec![
        module("low", vec![dir("system", vec![unreadable("a")])]),
        module("high", vec![dir("system", vec![unreadable("z"), unreadable("b")])]),
    ];
    match build(&modules, &target_root()) {
        Err(DeployError::AttrProbe { path }) => assert_eq!(path, "/m/high/system/z"),
        other => panic!("unexpected {:?}", other.map(|_| ())),
    }
}

#[test]
fn failed_probe_of_a_shadowed_entry_does_no_harm() {
    let modules = vec![
        module("low", vec![dir("system", vec![unreadable("build.prop")])]),
        module("high", vec![dir("system", vec![file("build.prop")])]),
    ];
    let tree = build(&modules, &target_root()).unwrap();
    assert_eq!(source(tree.child("build.prop").unwrap()), Some("/m/high/system/build.prop".to_string()));
}

#[test]
fn directory_shadows_lower_file_of_the_same_name() {
    let modules = vec![
        module("low", vec![dir("system", vec![file("etc")])]),
        module("high", vec![dir("system", vec![dir("etc", vec![file("hosts")])])]),
    ];
    let tree = build(&modules, &target_root()).unwrap();
    let etc = tree.child("etc").unwrap();
    assert!(etc.is_directory());
    assert_eq!(child_names(etc), vec!["hosts"]);
}

#[test]
fn file_shadows_lower_directory_of_the_same_name() {
    let modules = vec![
        module("low", vec![dir("system", vec![dir("etc", vec![file("hosts")])])]),
        module("high", vec![dir("system", vec![file("etc")])]),
    ];
    let tree = build(&modules, &target_root()).unwrap();
    let etc = tree.child("etc").unwrap();
    assert!(!etc.is_directory());
    assert_eq!(source(etc), Some("/m/high/system/etc".to_string()));
}

#[test]
fn rebuilding_gives_the_same_tree() {
    let modules = vec![
        module("low", vec![dir("system", vec![dir("etc", vec![file("hosts"), file(".replace")]), file("x")])]),
        module("high", vec![dir("system", vec![dir("etc", vec![special("hosts", 0o020000, 0)])])]),
    ];
    let root = target_root();
    let one = build(&modules, &root).unwrap();
    let two = build(&modules, &root).unwrap();
    assert_eq!(format!("{:?}", one), format!("{:?}", two));
}

#[test]
fn partly_read_projection_builds_from_the_rest() {
    let modules = vec![module("m", vec![dir("system", vec![file(".replace"), file("a"), file("b")])])];
    let root = target_root();
    let mut it = ModuleIterator::from_modules("/m", &modules, "system");
    assert_eq!(it.next().unwrap().name(), ".replace");
    assert_eq!(it.next().unwrap().name(), "a");
    let tree = tree_module("/", lookup(Some(&root), "system"), &mut it).unwrap();
    assert_eq!(child_names(&tree), vec!["b"]);
    assert!(!tree.is_replaced());
    assert!(tree.needs_synthetic());
    assert!(it.next().is_none());
}

#[test]
fn insert_keeps_order_and_drops_a_taken_name() {
    let mut children: Vec<Child> = Vec::new();
    assert!(insert(&mut children, "m".to_string(), leaf(Some("/1"), true)));
    assert!(insert(&mut children, "a".to_string(), leaf(Some("/2"), true)));
    assert!(insert(&mut children, "z".to_string(), leaf(Some("/3"), true)));
    assert!(!insert(&mut children, "m".to_string(), leaf(Some("/4"), true)));
    let names: Vec<&str> = children.iter().map(|c| c.name.as_str()).collect();
    assert_eq!(names, vec!["a", "m", "z"]);
    assert_eq!(source(&children[1].node), Some("/1".to_string()));
    assert!(has_child(&children, "z"));
    assert!(!has_child(&children, "y"));
}

#[test]
fn any_child_demands_tells_each_reason() {
    let calm = vec![Child { name: "a".to_string(), node: leaf(Some("/a"), true) }];
    assert!(!any_child_demands(&calm));
    assert!(!any_child_demands(&Vec::new()));
    let deleted = vec![Child { name: "a".to_string(), node: leaf(None, true) }];
    assert!(any_child_demands(&deleted));
    let absent = vec![
        Child { name: "a".to_string(), node: leaf(Some("/a"), true) },
        Child { name: "b".to_string(), node: leaf(Some("/b"), false) },
    ];
    assert!(any_child_demands(&absent));
    let synthetic = vec![Child {
        name: "d".to_string(),
        node: Node {
            node_type: NodeType::Directory { children: Vec::new(), needs_synthetic: true, replace: false },
            target_attr: Some(FileAttr { mode: 0o040755, rdev: 0 }),
        },
    }];
    assert!(any_child_demands(&synthetic));
}

#[test]
fn probe_tells_absent_from_unreadable() {
    let f = file("a");
    assert_eq!(probe("/system/a", Some(&f)).unwrap(), Some(FileAttr { mode: 0o100644, rdev: 0 }));
    assert_eq!(probe("/system/a", None).unwrap(), None);
    match probe("/system/a", Some(&unreadable("a"))) {
        Err(DeployError::AttrProbe { path }) => assert_eq!(path, "/system/a"),
        other => panic!("unexpected {:?}", other),
    }
}

#[test]
fn unreadable_target_of_a_file_ends_the_build() {
    let root = dir("", vec![dir("system", vec![dir("etc", vec![unreadable("hosts"), file("passwd")])])]);
    let modules = vec![module("m", vec![dir("system", vec![dir("etc", vec![file("hosts")])])])];
    match build(&modules, &root) {
        Err(DeployError::AttrProbe { path }) => assert_eq!(path, "/system/etc/hosts"),
        other => panic!("unexpected {:?}", other.map(|_| ())),
    }
    let beside = vec![module("m", vec![dir("system", vec![dir("etc", vec![file("passwd")])])])];
    assert!(build(&beside, &root).is_ok());
}

#[test]
fn unreadable_target_of_a_directory_ends_the_build() {
    let mut etc = dir("etc", vec![file("hosts")]);
    etc.attr = None;
    let root = dir("", vec![dir("system", vec![etc])]);
    let modules = vec![module("m", vec![dir("system", vec![dir("etc", vec![file("hosts")])])])];
    match build(&modules, &root) {
        Err(DeployError::AttrProbe { path }) => assert_eq!(path, "/system/etc"),
        other => panic!("unexpected {:?}", other.map(|_| ())),
    }
}

#[test]
fn module_probe_fails_before_target_probe() {
    let root = dir("", vec![dir("system", vec![unreadable("a")])]);
    let modules = vec![module("m", vec![dir("system", vec![unreadable("a")])])];
    match build(&modules, &root) {
        Err(DeployError::AttrProbe { path }) => assert_eq!(path, "/m/m/system/a"),
        other => panic!("unexpected {:?}", other.map(|_| ())),
    }
}

#[test]
fn children_fail_before_the_directory_itself() {
    let mut system = dir("system", vec![unreadable("a")]);
    system.attr = None;
    let root = dir("", vec![system]);
    let modules = vec![module("m", vec![dir("system", vec![file("a")])])];
    match build(&modules, &root) {
        Err(DeployError::AttrProbe { path }) => assert_eq!(path, "/system/a"),
        other => panic!("unexpected {:?}", other.map(|_| ())),
    }
}

#[test]
fn sentinel_and_shadowed_entries_probe_nothing() {
    let root = dir("", vec![dir("system", vec![unreadable(".replace"), file("a")])]);
    let modules = vec![
        module("low", vec![dir("system", vec![file(".replace")])]),
        module("high", vec![dir("system", vec![file("a")])]),
    ];
    assert!(build(&modules, &root).is_ok());
}

#[test]
fn directory_is_synthetic_exactly_when_something_below_asks_for_it() {
    let calm = vec![module("m", vec![dir("system", vec![dir("etc", vec![dir("init", vec![file("boot.rc")])])])])];
    let tree = build(&calm, &target_root()).unwrap();
    assert!(!tree.needs_synthetic());
    assert!(!tree.child("etc").unwrap().needs_synthetic());
    assert!(!tree.child("etc").unwrap().child("init").unwrap().needs_synthetic());

    let deleted = vec![module(
        "m",
        vec![dir("system", vec![dir("etc", vec![dir("init", vec![special("boot.rc", 0o020000, 0)])])])],
    )];
    let tree = build(&deleted, &target_root()).unwrap();
    assert!(tree.needs_synthetic());
    assert!(tree.child("etc").unwrap().needs_synthetic());
    assert!(tree.child("etc").unwrap().child("init").unwrap().needs_synthetic());

    let replaced = vec![module(
        "m",
        vec![dir("system", vec![dir("etc", vec![dir("init", vec![file(".replace")])]), dir("bin", vec![file("ls")])])],
    )];
    let tree = build(&replaced, &target_root()).unwrap();
    assert!(tree.needs_synthetic());
    assert!(tree.child("etc").unwrap().needs_synthetic());
    assert!(!tree.child("etc").unwrap().is_replaced());
    assert!(tree.child("etc").unwrap().child("init").unwrap().is_replaced());
    assert!(!tree.child("bin").unwrap().needs_synthetic());
}
