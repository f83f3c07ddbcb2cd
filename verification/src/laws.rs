use vstd::prelude::*;
use crate::error::DeployErrorView;
use crate::merge::Handle;
use crate::merge::handles_height;
use crate::merge::lemma_open_dirs_height;
use crate::merge::lemma_provider;
use crate::merge::lemma_winner_exists;
use crate::merge::lemma_winner_names_distinct;
use crate::merge::lemma_winner_precedence;
use crate::merge::lemma_winners_need_copies;
use crate::merge::open_dir;
use crate::merge::open_dirs;
use crate::merge::provider;
use crate::merge::winner_of;
use crate::merge::winners;
use crate::names::join_path;
use crate::names::lemma_name_lt_irreflexive;
use crate::names::name_lt;
use crate::names::replace_marker;
use crate::names::valid_name;
use crate::node::any_demands;
use crate::node::child_index;
use crate::node::ChildView;
use crate::node::get_child;
use crate::node::lemma_child_index;
use crate::node::lemma_insert_child;
use crate::node::NodeTypeView;
use crate::node::NodeView;
use crate::node::sorted;
use crate::snapshot::attr_of;
use crate::snapshot::find_entry;
use crate::snapshot::find_index;
use crate::snapshot::lemma_find_index;
use crate::snapshot::valid_entry;
use crate::snapshot::valid_listing;
use crate::tree::children_of;
use crate::tree::entry_node;
use crate::tree::lemma_children_step;
use crate::tree::replaced;
use crate::tree::Target;
use crate::tree::tree_of;

verus! {

/// In children that stand in the order of their names each child is found
/// under its own name.
pub proof fn lemma_sorted_lookup(cs: Seq<ChildView>, i: int)
    requires
        sorted(cs),
        0 <= i < cs.len(),
    ensures
        get_child(cs, cs[i].name) == Some(cs[i].node),
{
    lemma_child_index(cs, cs[i].name);
    let k = child_index(cs, cs[i].name)->Some_0;
    if k < i {
        lemma_name_lt_irreflexive(cs[i].name);
        assert(name_lt(cs[k].name, cs[i].name));
    }
}

/// What the children hold after the entries from `from` up to `upto`: they
/// stand in the order of their names; each of those entries but the sentinel
/// is there under its name, with the node built from it; and nothing else is
/// there.
pub proof fn lemma_children_lookup(
    hs: Seq<Handle>,
    from: nat,
    upto: nat,
    target: Target,
)
    requires
        from <= upto <= winners(hs).len(),
        children_of(hs, from, upto, target) is Ok,
    ensures
        ({
            let cs = children_of(hs, from, upto, target)->Ok_0;
            let w = winners(hs);
            &&& sorted(cs)
            &&& forall|k: int|
                from <= k < upto && (#[trigger] w[k]).name() != replace_marker() ==> entry_node(
                    hs,
                    w[k],
                    target,
                ) is Ok && get_child(cs, w[k].name()) == Some(entry_node(hs, w[k], target)->Ok_0)
            &&& forall|n: Seq<char>|
                (#[trigger] get_child(cs, n)) is Some ==> n != replace_marker() && exists|k: int|
                    from <= k < upto && (#[trigger] w[k]).name() == n
        }),
    decreases upto,
{
    let w = winners(hs);
    let cs = children_of(hs, from, upto, target)->Ok_0;
    if upto <= from {
        assert(cs =~= Seq::<ChildView>::empty());
    } else {
        let k0 = (upto - 1) as nat;
        lemma_children_step(hs, from, k0, target);
        lemma_children_lookup(hs, from, k0, target);
        lemma_winner_names_distinct(hs);
        let prev = children_of(hs, from, k0, target)->Ok_0;
        let c = w[k0 as int];
        if c.name() == replace_marker() {
        } else {
            if get_child(prev, c.name()) is Some {
                let j = choose|j: int| from <= j < k0 && (#[trigger] w[j]).name() == c.name();
                assert(w[j].name() != w[k0 as int].name());
            }
            let node = entry_node(hs, c, target)->Ok_0;
            lemma_insert_child(prev, c.name(), node);
            assert forall|k: int|
                from <= k < upto && (#[trigger] w[k]).name() != replace_marker() implies entry_node(
                hs,
                w[k],
                target,
            ) is Ok && get_child(cs, w[k].name()) == Some(
                entry_node(hs, w[k], target)->Ok_0,
            ) by {
                if k < k0 {
                    assert(w[k].name() != w[k0 as int].name());
                }
            }
            assert forall|n: Seq<char>| (#[trigger] get_child(cs, n)) is Some implies n
                != replace_marker() && exists|k: int|
                from <= k < upto && (#[trigger] w[k]).name() == n by {
                if n == c.name() {
                    assert(w[k0 as int].name() == n);
                } else {
                    assert(get_child(prev, n) is Some);
                    let j = choose|j: int| from <= j < k0 && (#[trigger] w[j]).name() == n;
                    assert(w[j].name() == n);
                }
            }
        }
    }
}

/// The children of a tree stand in the order of their names, so no name
/// occurs twice among them.
pub proof fn lemma_tree_children_sorted(hs: Seq<Handle>, target: Target)
    requires
        tree_of(hs, 0, target) is Ok,
    ensures
        sorted(tree_of(hs, 0, target)->Ok_0.children()),
{
    lemma_children_lookup(hs, 0, winners(hs).len(), target);
}

/// Every tree that is built keeps the invariant of trees: in each of its
/// directories the children stand in the strict order of their names.
pub proof fn lemma_tree_well_ordered(hs: Seq<Handle>, from: nat, target: Target)
    requires
        from <= winners(hs).len(),
        tree_of(hs, from, target) is Ok,
    ensures
        tree_of(hs, from, target)->Ok_0.well_ordered(),
    decreases handles_height(hs),
{
    let w = winners(hs);
    let cs = tree_of(hs, from, target)->Ok_0.children();
    lemma_children_lookup(hs, from, w.len(), target);
    assert forall|i: int| 0 <= i < cs.len() implies (#[trigger] cs[i]).node.well_ordered() by {
        lemma_sorted_lookup(cs, i);
        let k = choose|k: int| from <= k < w.len() && (#[trigger] w[k]).name() == cs[i].name;
        assert(cs[i].node == entry_node(hs, w[k], target)->Ok_0);
        if w[k].entry.is_dir {
            lemma_winners_need_copies(hs);
            lemma_open_dirs_height(hs, w[k].name());
            lemma_tree_well_ordered(open_dirs(hs, w[k].name()), 0, target.child(w[k].name()));
        }
    }
}

/// Every copy lists a valid listing.
pub open spec fn valid_handles(hs: Seq<Handle>) -> bool {
    forall|i: int| 0 <= i < hs.len() ==> valid_listing((#[trigger] hs[i]).entries)
}

/// The copies of a subdirectory of valid copies are valid.
pub proof fn lemma_open_dirs_valid(hs: Seq<Handle>, name: Seq<char>)
    requires
        valid_handles(hs),
    ensures
        valid_handles(open_dirs(hs, name)),
    decreases hs.len(),
{
    if hs.len() > 0 {
        let rest = hs.drop_last();
        assert(valid_handles(rest)) by {
            assert forall|i: int| 0 <= i < rest.len() implies valid_listing(
                (#[trigger] rest[i]).entries,
            ) by {
                assert(rest[i] == hs[i]);
            }
        }
        lemma_open_dirs_valid(rest, name);
        let sub = open_dirs(rest, name);
        let all = open_dirs(hs, name);
        if open_dir(hs.last(), name) is Some {
            let top = hs[hs.len() - 1];
            lemma_find_index(top.entries, name);
            assert(valid_entry(top.entries[find_index(top.entries, name)->Some_0]));
            assert forall|i: int| 0 <= i < all.len() implies valid_listing(
                (#[trigger] all[i]).entries,
            ) by {
                if i < sub.len() {
                    assert(all[i] == sub[i]);
                }
            }
        }
    }
}

/// A tree that is built from valid listings holds valid names only, at every
/// depth.
pub proof fn lemma_tree_names_valid(hs: Seq<Handle>, from: nat, target: Target)
    requires
        valid_handles(hs),
        from <= winners(hs).len(),
        tree_of(hs, from, target) is Ok,
    ensures
        tree_of(hs, from, target)->Ok_0.valid_names(),
    decreases handles_height(hs),
{
    let w = winners(hs);
    let cs = tree_of(hs, from, target)->Ok_0.children();
    lemma_children_lookup(hs, from, w.len(), target);
    assert forall|i: int| 0 <= i < cs.len() implies valid_name((#[trigger] cs[i]).name)
        && cs[i].node.valid_names() by {
        lemma_sorted_lookup(cs, i);
        let k = choose|k: int| from <= k < w.len() && (#[trigger] w[k]).name() == cs[i].name;
        assert(cs[i].node == entry_node(hs, w[k], target)->Ok_0);
        lemma_winner_precedence(hs, k);
        lemma_provider(hs, w[k].name());
        let p = provider(hs, w[k].name())->Some_0;
        lemma_find_index(hs[p].entries, w[k].name());
        assert(valid_entry(hs[p].entries[find_index(hs[p].entries, w[k].name())->Some_0]));
        if w[k].entry.is_dir {
            lemma_open_dirs_height(hs, w[k].name());
            lemma_open_dirs_valid(hs, w[k].name());
            lemma_tree_names_valid(open_dirs(hs, w[k].name()), 0, target.child(w[k].name()));
        }
    }
}

/// A level is built exactly when every entry that its merge yields, the
/// sentinel apart, gives a node and the probe of the level's own place on the
/// target does not fail.
pub proof fn lemma_tree_ok(hs: Seq<Handle>, target: Target)
    ensures
        tree_of(hs, 0, target) is Ok <==> target.probe() is Ok && forall|k: int|
            0 <= k < winners(hs).len() && (#[trigger] winners(hs)[k]).name() != replace_marker()
                ==> entry_node(hs, winners(hs)[k], target) is Ok,
{
    let w = winners(hs);
    if tree_of(hs, 0, target) is Ok {
        lemma_children_lookup(hs, 0, w.len(), target);
    }
    if forall|k: int|
        0 <= k < w.len() && (#[trigger] w[k]).name() != replace_marker() ==> entry_node(
            hs,
            w[k],
            target,
        ) is Ok {
        lemma_children_ok(hs, w.len(), target);
    }
}

/// A failed probe of a path of the target ends the build: a level whose own
/// path is on the target with attributes that could not be read is not
/// built.
pub proof fn lemma_unreadable_target_fails(hs: Seq<Handle>, target: Target)
    requires
        target.entry is Some,
        target.entry->Some_0.attr is None,
    ensures
        tree_of(hs, 0, target) is Err,
{
}

/// Neither is a level built that holds a file over a path of the target whose
/// attributes could not be read.
pub proof fn lemma_unreadable_file_target_fails(hs: Seq<Handle>, target: Target, k: int)
    requires
        0 <= k < winners(hs).len(),
        winners(hs)[k].name() != replace_marker(),
        !winners(hs)[k].entry.is_dir,
        target.child(winners(hs)[k].name()).entry is Some,
        target.child(winners(hs)[k].name()).entry->Some_0.attr is None,
    ensures
        tree_of(hs, 0, target) is Err,
{
    lemma_tree_ok(hs, target);
    assert(entry_node(hs, winners(hs)[k], target) is Err);
}

/// Where each entry up to `upto` gives a node, the children up to `upto` are
/// built.
proof fn lemma_children_ok(hs: Seq<Handle>, upto: nat, target: Target)
    requires
        upto <= winners(hs).len(),
        forall|k: int|
            0 <= k < upto && (#[trigger] winners(hs)[k]).name() != replace_marker() ==> entry_node(
                hs,
                winners(hs)[k],
                target,
            ) is Ok,
    ensures
        children_of(hs, 0, upto, target) is Ok,
    decreases upto,
{
    if upto > 0 {
        lemma_children_ok(hs, (upto - 1) as nat, target);
        lemma_children_step(hs, 0, (upto - 1) as nat, target);
        assert(winners(hs)[upto - 1].name() != replace_marker() ==> entry_node(
            hs,
            winners(hs)[upto - 1],
            target,
        ) is Ok);
    }
}

/// Precedence: the child that a tree holds under a name is built from the
/// first entry of that name in the copy of highest precedence that lists it.
/// What the copies below it hold under that name does not bear on the child.
pub proof fn lemma_child_from_winner(hs: Seq<Handle>, target: Target, name: Seq<char>)
    requires
        tree_of(hs, 0, target) is Ok,
        name != replace_marker(),
        winner_of(hs, name) is Some,
    ensures
        entry_node(hs, winner_of(hs, name)->Some_0, target) is Ok,
        get_child(tree_of(hs, 0, target)->Ok_0.children(), name) == Some(
            entry_node(hs, winner_of(hs, name)->Some_0, target)->Ok_0,
        ),
{
    let w = winners(hs);
    lemma_winner_exists(hs, name);
    let k = choose|k: int| 0 <= k < w.len() && (#[trigger] w[k]).name() == name;
    lemma_winner_precedence(hs, k);
    lemma_children_lookup(hs, 0, w.len(), target);
}

/// A tree holds a child only under a name that some copy lists, and never
/// under the name of the sentinel.
pub proof fn lemma_child_has_winner(hs: Seq<Handle>, target: Target, name: Seq<char>)
    requires
        tree_of(hs, 0, target) is Ok,
        get_child(tree_of(hs, 0, target)->Ok_0.children(), name) is Some,
    ensures
        name != replace_marker(),
        winner_of(hs, name) is Some,
{
    lemma_children_lookup(hs, 0, winners(hs).len(), target);
    lemma_winner_exists(hs, name);
}

/// The copy that lists a name while no copy above it does is the one of
/// highest precedence that lists it.
pub proof fn lemma_provider_is(hs: Seq<Handle>, name: Seq<char>, i: int)
    requires
        0 <= i < hs.len(),
        find_entry(hs[i].entries, name) is Some,
        forall|j: int| i < j < hs.len() ==> find_entry(#[trigger] hs[j].entries, name) is None,
    ensures
        provider(hs, name) == Some(i),
{
    lemma_provider(hs, name);
    let p = provider(hs, name);
    if p is None || p->Some_0 < i {
        assert(find_entry(hs[i].entries, name) is None);
    } else if p->Some_0 > i {
        assert(find_entry(hs[p->Some_0].entries, name) is None);
    }
}

/// A file is attributed to the module of highest precedence that provides
/// it: the child is bound from that module's path, whatever the modules
/// below it hold under the name.
pub proof fn lemma_file_from_highest(
    hs: Seq<Handle>,
    target: Target,
    name: Seq<char>,
    i: int,
)
    requires
        tree_of(hs, 0, target) is Ok,
        name != replace_marker(),
        0 <= i < hs.len(),
        find_entry(hs[i].entries, name) is Some,
        forall|j: int| i < j < hs.len() ==> find_entry(#[trigger] hs[j].entries, name) is None,
        !find_entry(hs[i].entries, name)->Some_0.is_dir,
        find_entry(hs[i].entries, name)->Some_0.attr is Some,
        !find_entry(hs[i].entries, name)->Some_0.attr->Some_0.spec_is_whiteout(),
    ensures
        get_child(tree_of(hs, 0, target)->Ok_0.children(), name) == Some(
            NodeView {
                node_type: NodeTypeView::File { source_path: Some(join_path(hs[i].path, name)) },
                target_attr: attr_of(target.child(name).entry),
            },
        ),
{
    lemma_provider_is(hs, name, i);
    lemma_find_index(hs[i].entries, name);
    lemma_child_from_winner(hs, target, name);
}

/// A path that the module of highest precedence providing it marks as a
/// deletion gives a deletion node, whatever the modules below it hold there.
pub proof fn lemma_deletion_wins(
    hs: Seq<Handle>,
    target: Target,
    name: Seq<char>,
    i: int,
)
    requires
        tree_of(hs, 0, target) is Ok,
        name != replace_marker(),
        0 <= i < hs.len(),
        find_entry(hs[i].entries, name) is Some,
        forall|j: int| i < j < hs.len() ==> find_entry(#[trigger] hs[j].entries, name) is None,
        !find_entry(hs[i].entries, name)->Some_0.is_dir,
        find_entry(hs[i].entries, name)->Some_0.attr is Some,
        find_entry(hs[i].entries, name)->Some_0.attr->Some_0.spec_is_whiteout(),
    ensures
        get_child(tree_of(hs, 0, target)->Ok_0.children(), name) == Some(
            NodeView {
                node_type: NodeTypeView::File { source_path: None },
                target_attr: attr_of(target.child(name).entry),
            },
        ),
{
    lemma_provider_is(hs, name, i);
    lemma_find_index(hs[i].entries, name);
    lemma_child_from_winner(hs, target, name);
}

/// The sentinel forces its directory to be synthetic, even with no child and
/// with the directory present on the target, and gives no child itself.
pub proof fn lemma_replace_forces_synthetic(hs: Seq<Handle>, target: Target, i: int)
    requires
        tree_of(hs, 0, target) is Ok,
        0 <= i < hs.len(),
        find_entry(hs[i].entries, replace_marker()) is Some,
    ensures
        tree_of(hs, 0, target)->Ok_0.is_synthetic_dir(),
        tree_of(hs, 0, target)->Ok_0.is_replaced_dir(),
        get_child(tree_of(hs, 0, target)->Ok_0.children(), replace_marker()) is None,
{
    lemma_provider(hs, replace_marker());
    assert(provider(hs, replace_marker()) is Some) by {
        if provider(hs, replace_marker()) is None {
            assert(find_entry(hs[i].entries, replace_marker()) is None);
        }
    }
    lemma_winner_exists(hs, replace_marker());
    lemma_children_lookup(hs, 0, winners(hs).len(), target);
}

/// The node that lies under `n` along a path of names.
pub open spec fn descend(n: NodeView, path: Seq<Seq<char>>) -> Option<NodeView>
    decreases path.len(),
{
    if path.len() == 0 {
        Some(n)
    } else {
        match get_child(n.children(), path[0]) {
            Some(c) => descend(c, path.drop_first()),
            None => None,
        }
    }
}

/// The node at `path` below `t` is a reason to make a directory synthetic:
/// the target has no such path, the node is a deletion, or it is a directory
/// that is marked for replacement.
pub open spec fn forces_synthetic(t: NodeView, path: Seq<Seq<char>>) -> bool {
    descend(t, path) matches Some(x) && (x.target_attr is None || x.is_deletion()
        || x.is_replaced_dir())
}

/// A path that leads to a node leads through the child under its first
/// name, and it ends there where that child is a file.
pub proof fn lemma_descend_step(t: NodeView, path: Seq<Seq<char>>)
    requires
        path.len() > 0,
        descend(t, path) is Some,
    ensures
        get_child(t.children(), path[0]) is Some,
        descend(get_child(t.children(), path[0])->Some_0, path.drop_first()) == descend(t, path),
        get_child(t.children(), path[0])->Some_0.node_type is File ==> path.len() == 1,
{
    let c = get_child(t.children(), path[0])->Some_0;
    let p = path.drop_first();
    if c.node_type is File && p.len() > 0 {
        assert(c.children() =~= Seq::<ChildView>::empty());
        assert(get_child(c.children(), p[0]) is None);
    }
}

/// A child that is a directory is the tree of every module's copy of that
/// directory.
pub proof fn lemma_subtree(hs: Seq<Handle>, target: Target, name: Seq<char>)
    requires
        tree_of(hs, 0, target) is Ok,
        get_child(tree_of(hs, 0, target)->Ok_0.children(), name) is Some,
        get_child(tree_of(hs, 0, target)->Ok_0.children(), name)->Some_0.node_type is Directory,
    ensures
        hs.len() > 0,
        tree_of(open_dirs(hs, name), 0, target.child(name)) == Ok::<NodeView, DeployErrorView>(
            get_child(tree_of(hs, 0, target)->Ok_0.children(), name)->Some_0,
        ),
{
    lemma_child_has_winner(hs, target, name);
    lemma_child_from_winner(hs, target, name);
    lemma_provider(hs, name);
    let i = provider(hs, name)->Some_0;
    lemma_find_index(hs[i].entries, name);
}

/// A reason anywhere below a directory makes the directory synthetic.
pub proof fn lemma_reason_forces(hs: Seq<Handle>, target: Target, path: Seq<Seq<char>>)
    requires
        tree_of(hs, 0, target) is Ok,
        forces_synthetic(tree_of(hs, 0, target)->Ok_0, path),
    ensures
        tree_of(hs, 0, target)->Ok_0.is_synthetic_dir(),
    decreases path.len(),
{
    let t = tree_of(hs, 0, target)->Ok_0;
    let cs = t.children();
    if path.len() > 0 {
        let n = path[0];
        let p = path.drop_first();
        let c1 = get_child(cs, n)->Some_0;
        lemma_descend_step(t, path);
        lemma_child_index(cs, n);
        let i = child_index(cs, n)->Some_0;
        assert(cs[i].node == c1);
        if c1.node_type is Directory {
            lemma_subtree(hs, target, n);
            lemma_reason_forces(open_dirs(hs, n), target.child(n), p);
        } else {
            assert(descend(c1, p) == Some(c1));
        }
        assert(cs[i].node.demands_synthetic());
    }
}

/// A directory that is synthetic has a reason at or below it.
pub proof fn lemma_synthetic_has_reason(hs: Seq<Handle>, target: Target) -> (path: Seq<
    Seq<char>,
>)
    requires
        tree_of(hs, 0, target) is Ok,
        tree_of(hs, 0, target)->Ok_0.is_synthetic_dir(),
    ensures
        forces_synthetic(tree_of(hs, 0, target)->Ok_0, path),
    decreases handles_height(hs),
{
    let t = tree_of(hs, 0, target)->Ok_0;
    let cs = t.children();
    if attr_of(target.entry) is None || replaced(hs, 0) {
        Seq::empty()
    } else {
        assert(any_demands(cs));
        let i = choose|i: int| 0 <= i < cs.len() && (#[trigger] cs[i]).node.demands_synthetic();
        let n = cs[i].name;
        let x = cs[i].node;
        lemma_tree_children_sorted(hs, target);
        lemma_sorted_lookup(cs, i);
        if x.target_attr is None || x.is_deletion() {
            let path = seq![n];
            assert(path.drop_first() =~= Seq::<Seq<char>>::empty());
            assert(descend(x, path.drop_first()) == Some(x));
            path
        } else {
            lemma_subtree(hs, target, n);
            let sub = open_dirs(hs, n);
            lemma_open_dirs_height(hs, n);
            let p = lemma_synthetic_has_reason(sub, target.child(n));
            let path = seq![n] + p;
            assert(path.drop_first() =~= p);
            assert(path[0] == n);
            path
        }
    }
}

/// A directory is synthetic exactly when, at the directory itself or at any
/// depth below it, the target lacks a path of the tree, a path is deleted, or
/// a directory is marked for replacement.
pub proof fn lemma_needs_synthetic(hs: Seq<Handle>, target: Target)
    requires
        tree_of(hs, 0, target) is Ok,
    ensures
        tree_of(hs, 0, target)->Ok_0.is_synthetic_dir() <==> exists|path: Seq<Seq<char>>|
            forces_synthetic(tree_of(hs, 0, target)->Ok_0, path),
{
    let t = tree_of(hs, 0, target)->Ok_0;
    if t.is_synthetic_dir() {
        let path = lemma_synthetic_has_reason(hs, target);
        assert(forces_synthetic(t, path));
    }
    if exists|path: Seq<Seq<char>>| forces_synthetic(t, path) {
        let path = choose|path: Seq<Seq<char>>| forces_synthetic(t, path);
        lemma_reason_forces(hs, target, path);
    }
}

/// The node at `path` below `t` is missing on the target or a deletion, or it
/// is `t` itself and marked for replacement.
pub open spec fn plain_reason(t: NodeView, path: Seq<Seq<char>>) -> bool {
    descend(t, path) matches Some(x) && (x.target_attr is None || x.is_deletion() || (path.len()
        == 0 && x.is_replaced_dir()))
}

/// A directory is synthetic exactly when it is missing on the target or
/// marked for replacement itself, or when at any depth below it a path is
/// deleted or missing on the target. This leaves out the trees in which a
/// directory below is marked for replacement while nothing else asks for a
/// synthetic directory: those are synthetic too.
pub proof fn lemma_needs_synthetic_plain(hs: Seq<Handle>, target: Target)
    requires
        tree_of(hs, 0, target) is Ok,
        (exists|path: Seq<Seq<char>>|
            path.len() > 0 && #[trigger] descend(tree_of(hs, 0, target)->Ok_0, path) is Some
                && descend(tree_of(hs, 0, target)->Ok_0, path)->Some_0.is_replaced_dir())
            ==> exists|path: Seq<Seq<char>>| plain_reason(tree_of(hs, 0, target)->Ok_0, path),
    ensures
        tree_of(hs, 0, target)->Ok_0.is_synthetic_dir() <==> exists|path: Seq<Seq<char>>|
            plain_reason(tree_of(hs, 0, target)->Ok_0, path),
{
    let t = tree_of(hs, 0, target)->Ok_0;
    if t.is_synthetic_dir() {
        let path = lemma_synthetic_has_reason(hs, target);
        if !plain_reason(t, path) {
            assert(path.len() > 0 && descend(t, path) is Some && descend(
                t,
                path,
            )->Some_0.is_replaced_dir());
        }
    }
    if exists|path: Seq<Seq<char>>| plain_reason(t, path) {
        let path = choose|path: Seq<Seq<char>>| plain_reason(t, path);
        assert(forces_synthetic(t, path));
        lemma_reason_forces(hs, target, path);
    }
}

/// Every module's copy of the directory that lies under the copies `hs`
/// along a path of names.
pub open spec fn handles_at(hs: Seq<Handle>, path: Seq<Seq<char>>) -> Seq<Handle>
    decreases path.len(),
{
    if path.len() == 0 {
        hs
    } else {
        handles_at(open_dirs(hs, path[0]), path.drop_first())
    }
}

/// The place on the target that lies under `target` along a path of names.
pub open spec fn target_at(target: Target, path: Seq<Seq<char>>) -> Target
    decreases path.len(),
{
    if path.len() == 0 {
        target
    } else {
        target_at(target.child(path[0]), path.drop_first())
    }
}

/// A directory at any depth of a tree is the tree of every module's copy of
/// that directory, built against the target entry of the same path. So what
/// holds of the children of every tree holds at every depth.
pub proof fn lemma_subtree_at(hs: Seq<Handle>, target: Target, path: Seq<Seq<char>>)
    requires
        tree_of(hs, 0, target) is Ok,
        descend(tree_of(hs, 0, target)->Ok_0, path) is Some,
        descend(tree_of(hs, 0, target)->Ok_0, path)->Some_0.node_type is Directory,
    ensures
        tree_of(handles_at(hs, path), 0, target_at(target, path)) == Ok::<
            NodeView,
            DeployErrorView,
        >(descend(tree_of(hs, 0, target)->Ok_0, path)->Some_0),
    decreases path.len(),
{
    let t = tree_of(hs, 0, target)->Ok_0;
    if path.len() > 0 {
        let n = path[0];
        let p = path.drop_first();
        let c1 = get_child(t.children(), n)->Some_0;
        lemma_descend_step(t, path);
        if c1.node_type is Directory {
            lemma_subtree(hs, target, n);
            lemma_subtree_at(open_dirs(hs, n), target.child(n), p);
        } else {
            assert(descend(c1, p) == Some(c1));
        }
    }
}

/// One more name at the end of a path leads to the child under that name.
pub proof fn lemma_descend_push(t: NodeView, path: Seq<Seq<char>>, name: Seq<char>)
    ensures
        descend(t, path.push(name)) == match descend(t, path) {
            Some(x) => get_child(x.children(), name),
            None => None,
        },
    decreases path.len(),
{
    let longer = path.push(name);
    if path.len() == 0 {
        assert(longer.drop_first() =~= Seq::<Seq<char>>::empty());
        if get_child(t.children(), name) is Some {
            assert(descend(get_child(t.children(), name)->Some_0, longer.drop_first())
                == get_child(t.children(), name));
        }
    } else {
        assert(longer.drop_first() =~= path.drop_first().push(name));
        assert(longer[0] == path[0]);
        if get_child(t.children(), path[0]) is Some {
            lemma_descend_push(get_child(t.children(), path[0])->Some_0, path.drop_first(), name);
        }
    }
}

/// At any depth, a path that the module of highest precedence providing it
/// marks as a deletion gives a deletion node, whatever the modules below it
/// hold there.
pub proof fn lemma_deletion_wins_at(
    hs: Seq<Handle>,
    target: Target,
    path: Seq<Seq<char>>,
    name: Seq<char>,
    i: int,
)
    requires
        tree_of(hs, 0, target) is Ok,
        descend(tree_of(hs, 0, target)->Ok_0, path) is Some,
        descend(tree_of(hs, 0, target)->Ok_0, path)->Some_0.node_type is Directory,
        name != replace_marker(),
        0 <= i < handles_at(hs, path).len(),
        find_entry(handles_at(hs, path)[i].entries, name) is Some,
        forall|j: int|
            i < j < handles_at(hs, path).len() ==> find_entry(
                #[trigger] handles_at(hs, path)[j].entries,
                name,
            ) is None,
        !find_entry(handles_at(hs, path)[i].entries, name)->Some_0.is_dir,
        find_entry(handles_at(hs, path)[i].entries, name)->Some_0.attr is Some,
        find_entry(handles_at(hs, path)[i].entries, name)->Some_0.attr->Some_0.spec_is_whiteout(),
    ensures
        descend(tree_of(hs, 0, target)->Ok_0, path.push(name)) == Some(
            NodeView {
                node_type: NodeTypeView::File { source_path: None },
                target_attr: attr_of(target_at(target, path).child(name).entry),
            },
        ),
{
    lemma_subtree_at(hs, target, path);
    lemma_deletion_wins(handles_at(hs, path), target_at(target, path), name, i);
    lemma_descend_push(tree_of(hs, 0, target)->Ok_0, path, name);
}

/// At any depth, a file is attributed to the module of highest precedence
/// that provides it.
pub proof fn lemma_file_from_highest_at(
    hs: Seq<Handle>,
    target: Target,
    path: Seq<Seq<char>>,
    name: Seq<char>,
    i: int,
)
    requires
        tree_of(hs, 0, target) is Ok,
        descend(tree_of(hs, 0, target)->Ok_0, path) is Some,
        descend(tree_of(hs, 0, target)->Ok_0, path)->Some_0.node_type is Directory,
        name != replace_marker(),
        0 <= i < handles_at(hs, path).len(),
        find_entry(handles_at(hs, path)[i].entries, name) is Some,
        forall|j: int|
            i < j < handles_at(hs, path).len() ==> find_entry(
                #[trigger] handles_at(hs, path)[j].entries,
                name,
            ) is None,
        !find_entry(handles_at(hs, path)[i].entries, name)->Some_0.is_dir,
        find_entry(handles_at(hs, path)[i].entries, name)->Some_0.attr is Some,
        !find_entry(handles_at(hs, path)[i].entries, name)->Some_0.attr->Some_0.spec_is_whiteout(),
    ensures
        descend(tree_of(hs, 0, target)->Ok_0, path.push(name)) == Some(
            NodeView {
                node_type: NodeTypeView::File {
                    source_path: Some(join_path(handles_at(hs, path)[i].path, name)),
                },
                target_attr: attr_of(target_at(target, path).child(name).entry),
            },
        ),
{
    lemma_subtree_at(hs, target, path);
    lemma_file_from_highest(handles_at(hs, path), target_at(target, path), name, i);
    lemma_descend_push(tree_of(hs, 0, target)->Ok_0, path, name);
}

} // verus!
