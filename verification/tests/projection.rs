use module_overlay::attr::FileAttr;
use module_overlay::projection::contains_name;
use module_overlay::projection::open_all;
use module_overlay::projection::DirHandle;
use module_overlay::projection::ModuleInfo;
use module_overlay::projection::ModuleIterator;
use module_overlay::snapshot::find;
use module_overlay::snapshot::lookup;
use module_overlay::snapshot::DirEntry;

fn file(name: &str) -> DirEntry {
    DirEntry {
        name: name.to_string(),
        is_dir: false,
        attr: Some(FileAttr { mode: 0o100644, rdev: 0 }),
        entries: Vec::new(),
    }
}

fn unreadable(name: &str) -> DirEntry {
    DirEntry { name: name.to_string(), is_dir: false, attr: None, entries: Vec::new() }
}

fn dir(name: &str, entries: Vec<DirEntry>) -> DirEntry {
    DirEntry {
        name: name.to_string(),
        is_dir: true,
        attr: Some(FileAttr { mode: 0o040755, rdev: 0 }),
        entries,
    }
}

fn module(name: &str, entries: Vec<DirEntry>) -> ModuleInfo {
    ModuleInfo { name: name.to_string(), entries }
}

fn drain(it: &mut ModuleIterator) -> Vec<(String, String)> {
    let mut out = Vec::new();
    while let Some(e) = it.next() {
        out.push((e.name().to_string(), e.path().to_string()));
    }
    out
}

fn pair(name: &str, path: &str) -> (String, String) {
    (name.to_string(), path.to_string())
}

#[test]
fn later_module_takes_precedence() {
    let modules = vec![
        module("low", vec![dir("system", vec![file("a"), file("b")])]),
        module("high", vec![dir("system", vec![file("b"), file("c")])]),
    ];
    let mut it = ModuleIterator::from_modules("/m", &modules, "system");
    assert_eq!(it.name(), "system");
    let got = drain(&mut it);
    let expected = vec![
        pair("b", "/m/high/system/b"),
        pair("c", "/m/high/system/c"),
        pair("a", "/m/low/system/a"),
    ];
    assert_eq!(got, expected);
}

#[test]
fn each_name_is_yielded_once() {
    let modules = vec![
        module("one", vec![dir("system", vec![file("x"), file("y")])]),
        module("two", vec![dir("system", vec![file("y"), file("x")])]),
        module("three", vec![dir("system", vec![file("x"), file("z"), file("x")])]),
    ];
    let mut it = ModuleIterator::from_modules("/m", &modules, "system");
    let got = drain(&mut it);
    let expected = vec![
        pair("x", "/m/three/system/x"),
        pair("z", "/m/three/system/z"),
        pair("y", "/m/two/system/y"),
    ];
    assert_eq!(got, expected);
    assert!(it.next().is_none());
}

#[test]
fn module_without_the_directory_is_left_out() {
    let modules = vec![
        module("none", vec![file("module.prop")]),
        module("file", vec![file("system")]),
        module("real", vec![dir("system", vec![file("a")])]),
    ];
    let mut it = ModuleIterator::from_modules("/m", &modules, "system");
    assert_eq!(drain(&mut it), vec![pair("a", "/m/real/system/a")]);
}

#[test]
fn no_modules_yield_nothing() {
    let modules: Vec<ModuleInfo> = Vec::new();
    let mut it = ModuleIterator::from_modules("/m", &modules, "system");
    assert!(it.next().is_none());
}

#[test]
fn directory_entry_opens_every_copy() {
    let modules = vec![
        module("low", vec![dir("system", vec![dir("lib", vec![file("libfoo.so")])])]),
        module("mid", vec![dir("system", vec![file("lib")])]),
        module("high", vec![dir("system", vec![dir("lib", vec![file("libbar.so")])])]),
    ];
    let mut it = ModuleIterator::from_modules("/m", &modules, "system");
    let e = it.next().unwrap();
    assert_eq!(e.name(), "lib");
    assert_eq!(e.path(), "/m/high/system/lib");
    assert!(e.is_dir());
    let mut sub = e.iter().unwrap();
    assert_eq!(sub.name(), "lib");
    let got = drain(&mut sub);
    let expected = vec![
        pair("libbar.so", "/m/high/system/lib/libbar.so"),
        pair("libfoo.so", "/m/low/system/lib/libfoo.so"),
    ];
    assert_eq!(got, expected);
    assert!(it.next().is_none());
}

#[test]
fn file_entry_has_no_projection() {
    let modules = vec![module("m", vec![dir("system", vec![file("a")])])];
    let mut it = ModuleIterator::from_modules("/m", &modules, "system");
    let e = it.next().unwrap();
    assert!(!e.is_dir());
    assert_eq!(e.get_attr().unwrap(), FileAttr { mode: 0o100644, rdev: 0 });
    assert!(e.iter().is_none());
}

#[test]
fn unreadable_attributes_give_probe_error() {
    let modules = vec![module("m", vec![dir("system", vec![unreadable("a")])])];
    let mut it = ModuleIterator::from_modules("/m", &modules, "system");
    let e = it.next().unwrap();
    let err = e.get_attr().unwrap_err();
    assert_eq!(err.message(), "cannot read attributes of /m/m/system/a");
}

#[test]
fn open_all_keeps_order_and_joins_paths() {
    let a = vec![dir("d", vec![file("x")])];
    let b = vec![file("d")];
    let c = vec![file("other"), dir("d", Vec::new())];
    let handles = vec![
        DirHandle { path: "/a".to_string(), entries: &a },
        DirHandle { path: "/b".to_string(), entries: &b },
        DirHandle { path: "/c/".to_string(), entries: &c },
    ];
    let sub = open_all(&handles, "d");
    assert_eq!(sub.len(), 2);
    assert_eq!(sub[0].path, "/a/d");
    assert_eq!(sub[0].entries.len(), 1);
    assert_eq!(sub[1].path, "/c/d");
    assert_eq!(sub[1].entries.len(), 0);
}

#[test]
fn find_takes_the_first_of_a_name() {
    let listing = vec![file("a"), dir("b", Vec::new()), file("b")];
    assert!(find(&listing, "b").unwrap().is_dir);
    assert!(!find(&listing, "a").unwrap().is_dir);
    assert!(find(&listing, "c").is_none());
}

#[test]
fn lookup_descends_only_into_directories() {
    let d = dir("etc", vec![file("hosts")]);
    assert_eq!(lookup(Some(&d), "hosts").unwrap().name, "hosts");
    assert!(lookup(Some(&d), "passwd").is_none());
    assert!(lookup(None, "hosts").is_none());
    let mut f = file("etc");
    f.entries.push(file("hosts"));
    assert!(lookup(Some(&f), "hosts").is_none());
}

#[test]
fn contains_name_compares_whole_names() {
    let names = vec!["bin".to_string(), "etc".to_string()];
    assert!(contains_name(&names, "etc"));
    assert!(!contains_name(&names, "et"));
    assert!(!contains_name(&Vec::new(), "etc"));
}

#[test]
fn projection_over_given_directories() {
    let a = vec![file("x"), file("y")];
    let b = vec![file("y"), file("z")];
    let handles = vec![
        DirHandle { path: "/a".to_string(), entries: &a },
        DirHandle { path: "/b".to_string(), entries: &b },
    ];
    let mut it = ModuleIterator::new("level".to_string(), handles);
    assert_eq!(it.name(), "level");
    let got = drain(&mut it);
    assert_eq!(got, vec![pair("y", "/b/y"), pair("z", "/b/z"), pair("x", "/a/x")]);
}
