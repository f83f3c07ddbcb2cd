use vstd::prelude::*;
use crate::error::DeployError;
use crate::error::DeployErrorView;
use crate::landing::file_op;
use crate::landing::lemma_child_target_valid;
use crate::landing::lemma_only_own_lands;
use crate::landing::op_dest;
use crate::landing::path_at;
use crate::laws::descend;
use crate::laws::lemma_child_from_winner;
use crate::laws::lemma_open_dirs_valid;
use crate::laws::lemma_provider_is;
use crate::laws::lemma_tree_names_valid;
use crate::laws::lemma_tree_well_ordered;
use crate::laws::valid_handles;
use crate::merge::Candidate;
use crate::merge::Handle;
use crate::merge::lemma_open_dirs_origin;
use crate::merge::lemma_open_dirs_position;
use crate::merge::lemma_opened_before_grows;
use crate::merge::open_dirs;
use crate::merge::opened_before;
use crate::mount::as_root;
use crate::mount::MountOp;
use crate::mount::MountOpView;
use crate::mount::ops_view;
use crate::mount::plan_of;
use crate::names::clean_path;
use crate::names::join;
use crate::names::join_path;
use crate::names::replace_marker;
use crate::node::get_child;
use crate::node::NodeView;
use crate::projection::infos_view;
use crate::projection::module_handles;
use crate::projection::ModuleInfo;
use crate::projection::ModuleInfoView;
use crate::projection::ModuleIterator;
use crate::snapshot::child_of;
use crate::snapshot::DirEntry;
use crate::snapshot::EntryView;
use crate::snapshot::find_entry;
use crate::snapshot::lookup;
use crate::snapshot::valid_listing;
use crate::tree::entry_node;
use crate::tree::level_target;
use crate::tree::Target;
use crate::tree::tree_module;
use crate::tree::tree_of;

verus! {

/// The name of the mount root that the modules overlay.
pub open spec fn system_name() -> Seq<char> {
    seq!['s', 'y', 's', 't', 'e', 'm']
}

/// The path of the root of the target.
pub open spec fn root_path() -> Seq<char> {
    seq!['/']
}

/// The path at which the modules are overlaid.
pub open spec fn system_path() -> Seq<char> {
    join_path(root_path(), system_name())
}

/// What a module lists in its `system` directory, where it has one.
pub open spec fn system_listing(info: ModuleInfoView) -> Option<Seq<EntryView>> {
    match find_entry(info.entries, system_name()) {
        Some(e) => if e.is_dir {
            Some(e.entries)
        } else {
            None
        },
        None => None,
    }
}

/// Every module's copy of the `system` directory, in the order of the
/// modules.
pub open spec fn system_handles(modules_root: Seq<char>, infos: Seq<ModuleInfoView>) -> Seq<
    Handle,
> {
    open_dirs(module_handles(modules_root, infos), system_name())
}

/// The place of `/system` on the target whose root directory is `root`.
pub open spec fn system_target(root: EntryView) -> Target {
    level_target(root_path(), system_name(), child_of(Some(root), system_name()))
}

/// The tree that a pass over the modules builds for `/system`, or the error
/// that ends the pass. `root` is the target's root directory.
pub open spec fn deploy_tree(modules_root: Seq<char>, infos: Seq<ModuleInfoView>, root: EntryView)
    -> Result<NodeView, DeployErrorView> {
    tree_of(system_handles(modules_root, infos), 0, system_target(root))
}

/// What a pass over the modules decides: the operations that overlay the
/// modules' `system` directories on the target's `/system`, or the error that
/// ends the pass. `root` is the target's root directory.
pub open spec fn deploy_plan(
    modules_root: Seq<char>,
    infos: Seq<ModuleInfoView>,
    root: EntryView,
) -> Result<Seq<MountOpView>, DeployErrorView> {
    match deploy_tree(modules_root, infos, root) {
        Err(e) => Err(e),
        Ok(n) => plan_of(as_root(n), system_path(), false, child_of(Some(root), system_name())),
    }
}

/// A later module takes precedence: what the tree holds under a name at the
/// top of `/system` is built from the last module that lists the name there,
/// whatever the modules before it list under that name.
pub proof fn lemma_later_module_wins(
    modules_root: Seq<char>,
    infos: Seq<ModuleInfoView>,
    root: EntryView,
    j: int,
    name: Seq<char>,
)
    requires
        deploy_tree(modules_root, infos, root) is Ok,
        name != replace_marker(),
        0 <= j < infos.len(),
        system_listing(infos[j]) is Some,
        find_entry(system_listing(infos[j])->Some_0, name) is Some,
        forall|m: int|
            j < m < infos.len() && system_listing(#[trigger] infos[m]) is Some ==> find_entry(
                system_listing(infos[m])->Some_0,
                name,
            ) is None,
    ensures
        ({
            let winner = Candidate {
                dir: join_path(join_path(modules_root, infos[j].name), system_name()),
                entry: find_entry(system_listing(infos[j])->Some_0, name)->Some_0,
            };
            let node = entry_node(system_handles(modules_root, infos), winner, system_target(root));
            node is Ok && get_child(deploy_tree(modules_root, infos, root)->Ok_0.children(), name)
                == Some(node->Ok_0)
        }),
{
    let all = module_handles(modules_root, infos);
    let hs = system_handles(modules_root, infos);
    let target = system_target(root);
    let p = opened_before(all, system_name(), j);
    lemma_open_dirs_position(all, system_name(), j);
    assert forall|k: int| p < k < hs.len() implies find_entry(#[trigger] hs[k].entries, name)
        is None by {
        let m = lemma_open_dirs_origin(all, system_name(), k);
        lemma_open_dirs_position(all, system_name(), m);
        if m <= j {
            lemma_opened_before_grows(all, system_name(), m, j);
        }
        assert(system_listing(infos[m]) is Some);
    }
    lemma_provider_is(hs, name, p);
    lemma_child_from_winner(hs, target, name);
}

/// In a pass over valid listings, nothing but a file's own operation lands on
/// the file's path: the operation of each file of the tree is in the plan,
/// and whatever the plan does at that file's path is that operation. A path
/// that a module deletes is removed, and nothing is bound, mirrored or
/// created there.
pub proof fn lemma_deploy_only_own_lands(
    modules_root: Seq<char>,
    infos: Seq<ModuleInfoView>,
    root: EntryView,
    path: Seq<Seq<char>>,
)
    requires
        forall|i: int| 0 <= i < infos.len() ==> valid_listing((#[trigger] infos[i]).entries),
        valid_listing(root.entries),
        deploy_plan(modules_root, infos, root) is Ok,
        path.len() > 0,
        descend(deploy_tree(modules_root, infos, root)->Ok_0, path) is Some,
        descend(deploy_tree(modules_root, infos, root)->Ok_0, path)->Some_0.node_type is File,
    ensures
        ({
            let at = path_at(system_path(), path);
            let own = file_op(descend(deploy_tree(modules_root, infos, root)->Ok_0, path)->Some_0, at);
            let ops = deploy_plan(modules_root, infos, root)->Ok_0;
            &&& ops.contains(own)
            &&& forall|k: int| 0 <= k < ops.len() && op_dest(#[trigger] ops[k]) == at ==> ops[k] == own
        }),
{
    let all = module_handles(modules_root, infos);
    let hs = system_handles(modules_root, infos);
    let place = system_target(root);
    let tree = deploy_tree(modules_root, infos, root)->Ok_0;
    let target = child_of(Some(root), system_name());
    assert(valid_handles(all));
    lemma_open_dirs_valid(all, system_name());
    lemma_tree_names_valid(hs, 0, place);
    lemma_tree_well_ordered(hs, 0, place);
    lemma_child_target_valid(Some(root), system_name());
    assert(clean_path(system_path()));
    assert(as_root(tree).children() == tree.children());
    assert(descend(as_root(tree), path) == descend(tree, path));
    lemma_only_own_lands(as_root(tree), system_path(), false, target, path);
}

/// Merges the modules' `system` directories, builds the tree against the
/// target and plans the mount of `/system`. A later module takes precedence
/// over an earlier one. Each module's directory lies under `modules_root` by
/// the module's name; `root` is the target's root directory as it was read.
/// The flag does not bear on the plan.
pub fn deploy_modules(
    zygisk_enabled: bool,
    modules_root: &str,
    module_list: &Vec<ModuleInfo>,
    root: &DirEntry,
) -> (r: Result<Vec<MountOp>, DeployError>)
    ensures
        match r {
            Ok(ops) => deploy_plan(modules_root@, infos_view(module_list@), root@) == Ok::<
                Seq<MountOpView>,
                DeployErrorView,
            >(ops_view(ops@)),
            Err(e) => deploy_plan(modules_root@, infos_view(module_list@), root@) == Err::<
                Seq<MountOpView>,
                DeployErrorView,
            >(e@),
        },
{
    proof {
        reveal_strlit("system");
        reveal_strlit("/");
        assert("system"@ =~= system_name());
        assert("/"@ =~= root_path());
    }
    let mut modules = ModuleIterator::from_modules(modules_root, module_list, "system");
    let target = lookup(Some(root), "system");
    let mut system_node = match tree_module("/", target, &mut modules) {
        Ok(n) => n,
        Err(e) => {
            return Err(e);
        },
    };
    let dest = join("/", "system");
    system_node.mount(dest.as_str(), target)
}

} // verus!
