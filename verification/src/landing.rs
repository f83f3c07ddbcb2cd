use vstd::prelude::*;
use crate::error::DeployErrorView;
use crate::laws::descend;
use crate::laws::lemma_descend_step;
use crate::laws::lemma_sorted_lookup;
use crate::mount::directory_head;
use crate::mount::lemma_plan_in_name_order;
use crate::mount::mirror_entry;
use crate::mount::mirror_listing;
use crate::mount::MountOpView;
use crate::mount::pass_entry;
use crate::mount::pass_through;
use crate::mount::plan_children;
use crate::mount::plan_of;
use crate::mount::visible_target;
use crate::names::at_or_below;
use crate::names::below;
use crate::names::clean_path;
use crate::names::join_path;
use crate::names::lemma_below_transitive;
use crate::names::lemma_join_below;
use crate::names::lemma_name_lt_irreflexive;
use crate::names::lemma_names_apart;
use crate::names::name_lt;
use crate::names::valid_name;
use crate::node::child_index;
use crate::node::ChildView;
use crate::node::get_child;
use crate::node::lemma_child_index;
use crate::node::NodeTypeView;
use crate::node::NodeView;
use crate::snapshot::child_of;
use crate::snapshot::EntryView;
use crate::snapshot::find_index;
use crate::snapshot::lemma_find_index;
use crate::snapshot::listing_of;
use crate::snapshot::valid_entry;
use crate::snapshot::valid_listing;

verus! {

/// The path on which an operation lands.
pub open spec fn op_dest(op: MountOpView) -> Seq<char> {
    match op {
        MountOpView::CreateSyntheticDirectory { path } => path,
        MountOpView::CreateDirectory { path } => path,
        MountOpView::BindMount { dest, .. } => dest,
        MountOpView::RemoveOrHide { dest } => dest,
    }
}

/// Every operation lands at `dir` or below it.
pub open spec fn all_within(ops: Seq<MountOpView>, dir: Seq<char>) -> bool {
    forall|k: int| 0 <= k < ops.len() ==> at_or_below(op_dest(#[trigger] ops[k]), dir)
}

/// Every operation lands at or below the place of one of the entries of `s`
/// in the directory `dir`.
pub open spec fn under_entries(ops: Seq<MountOpView>, dir: Seq<char>, s: Seq<EntryView>) -> bool {
    forall|k: int|
        0 <= k < ops.len() ==> exists|i: int|
            0 <= i < s.len() && at_or_below(
                op_dest(#[trigger] ops[k]),
                join_path(dir, (#[trigger] s[i]).name),
            )
}

/// What passes an entry through lands at the entry's own place or below it.
pub proof fn lemma_mirror_entry_within(dir: Seq<char>, r: EntryView)
    requires
        clean_path(dir),
        valid_entry(r),
    ensures
        all_within(mirror_entry(dir, r), join_path(dir, r.name)),
    decreases r,
{
    let p = join_path(dir, r.name);
    lemma_join_below(dir, r.name);
    if r.is_dir {
        lemma_mirror_listing_within(p, r.entries);
        let below_ops = mirror_listing(p, r.entries);
        let ops = mirror_entry(dir, r);
        assert forall|k: int| 0 <= k < ops.len() implies at_or_below(
            op_dest(#[trigger] ops[k]),
            p,
        ) by {
            if k > 0 {
                assert(ops[k] == below_ops[k - 1]);
                let i = choose|i: int|
                    0 <= i < r.entries.len() && at_or_below(
                        op_dest(below_ops[k - 1]),
                        join_path(p, (#[trigger] r.entries[i]).name),
                    );
                assert(valid_entry(r.entries[i]));
                lemma_join_below(p, r.entries[i].name);
                lemma_below_transitive(
                    op_dest(below_ops[k - 1]),
                    join_path(p, r.entries[i].name),
                    p,
                );
            }
        }
    }
}

/// What passes a listing through lands at or below the places of its
/// entries.
pub proof fn lemma_mirror_listing_within(dir: Seq<char>, s: Seq<EntryView>)
    requires
        clean_path(dir),
        valid_listing(s),
    ensures
        under_entries(mirror_listing(dir, s), dir, s),
    decreases s,
{
    if s.len() > 0 {
        let rest = s.drop_last();
        assert(valid_listing(rest)) by {
            assert forall|i: int| 0 <= i < rest.len() implies valid_entry(#[trigger] rest[i]) by {
                assert(rest[i] == s[i]);
            }
        }
        lemma_mirror_listing_within(dir, rest);
        lemma_mirror_entry_within(dir, s.last());
        let first = mirror_listing(dir, rest);
        let second = mirror_entry(dir, s.last());
        let ops = mirror_listing(dir, s);
        assert forall|k: int| 0 <= k < ops.len() implies exists|i: int|
            0 <= i < s.len() && at_or_below(
                op_dest(#[trigger] ops[k]),
                join_path(dir, (#[trigger] s[i]).name),
            ) by {
            if k < first.len() {
                assert(ops[k] == first[k]);
                let i = choose|i: int|
                    0 <= i < rest.len() && at_or_below(
                        op_dest(first[k]),
                        join_path(dir, (#[trigger] rest[i]).name),
                    );
                assert(s[i] == rest[i]);
                assert(at_or_below(op_dest(ops[k]), join_path(dir, s[i].name)));
            } else {
                let t = k - first.len();
                let i = s.len() - 1;
                assert(ops[k] == second[t]);
                assert(s[i] == s.last());
                assert(at_or_below(op_dest(second[t]), join_path(dir, s[i].name)));
            }
        }
        assert(under_entries(ops, dir, s));
    } else {
        assert(mirror_listing(dir, s).len() == 0);
    }
}

/// Whether the walk leaves a name to a child of the tree: a child bears it
/// that is a file or a directory that is made synthetic.
pub open spec fn left_to_child(children: Seq<ChildView>, name: Seq<char>) -> bool {
    get_child(children, name) matches Some(x) && !(x.node_type is Directory
        && !x.is_synthetic_dir())
}

/// Every operation lands at or below the place of one of the entries of `s`
/// that the walk does not leave to a child.
pub open spec fn under_passing(
    ops: Seq<MountOpView>,
    dir: Seq<char>,
    s: Seq<EntryView>,
    children: Seq<ChildView>,
) -> bool {
    forall|k: int|
        0 <= k < ops.len() ==> exists|i: int|
            0 <= i < s.len() && !left_to_child(children, (#[trigger] s[i]).name) && at_or_below(
                op_dest(#[trigger] ops[k]),
                join_path(dir, s[i].name),
            )
}

/// What the walk does for an entry lands at the entry's own place or below
/// it, and it does nothing for an entry that it leaves to a child.
pub proof fn lemma_pass_entry_within(dir: Seq<char>, r: EntryView, children: Seq<ChildView>)
    requires
        clean_path(dir),
        valid_entry(r),
    ensures
        all_within(pass_entry(dir, r, children), join_path(dir, r.name)),
        left_to_child(children, r.name) ==> pass_entry(dir, r, children).len() == 0,
    decreases r,
{
    let p = join_path(dir, r.name);
    lemma_join_below(dir, r.name);
    let ops = pass_entry(dir, r, children);
    match get_child(children, r.name) {
        None => {
            lemma_mirror_entry_within(dir, r);
        },
        Some(x) => {
            if r.is_dir && x.node_type is Directory && !x.is_synthetic_dir() {
                lemma_pass_through_within(p, r.entries, x.children());
                let below_ops = pass_through(p, r.entries, x.children());
                assert forall|k: int| 0 <= k < ops.len() implies at_or_below(
                    op_dest(#[trigger] ops[k]),
                    p,
                ) by {
                    if k > 0 {
                        assert(ops[k] == below_ops[k - 1]);
                        let i = choose|i: int|
                            0 <= i < r.entries.len() && !left_to_child(
                                x.children(),
                                (#[trigger] r.entries[i]).name,
                            ) && at_or_below(
                                op_dest(below_ops[k - 1]),
                                join_path(p, r.entries[i].name),
                            );
                        assert(valid_entry(r.entries[i]));
                        lemma_join_below(p, r.entries[i].name);
                        lemma_below_transitive(
                            op_dest(below_ops[k - 1]),
                            join_path(p, r.entries[i].name),
                            p,
                        );
                    }
                }
            }
        },
    }
}

/// What the walk of a listing does lands at or below the places of those
/// entries that it does not leave to a child.
pub proof fn lemma_pass_through_within(dir: Seq<char>, s: Seq<EntryView>, children: Seq<ChildView>)
    requires
        clean_path(dir),
        valid_listing(s),
    ensures
        under_passing(pass_through(dir, s, children), dir, s, children),
    decreases s,
{
    if s.len() > 0 {
        let rest = s.drop_last();
        assert(valid_listing(rest)) by {
            assert forall|i: int| 0 <= i < rest.len() implies valid_entry(#[trigger] rest[i]) by {
                assert(rest[i] == s[i]);
            }
        }
        assert(valid_entry(s[s.len() - 1]));
        lemma_pass_through_within(dir, rest, children);
        lemma_pass_entry_within(dir, s.last(), children);
        let first = pass_through(dir, rest, children);
        let second = pass_entry(dir, s.last(), children);
        let ops = pass_through(dir, s, children);
        assert forall|k: int| 0 <= k < ops.len() implies exists|i: int|
            0 <= i < s.len() && !left_to_child(children, (#[trigger] s[i]).name) && at_or_below(
                op_dest(#[trigger] ops[k]),
                join_path(dir, s[i].name),
            ) by {
            if k < first.len() {
                assert(ops[k] == first[k]);
                let i = choose|i: int|
                    0 <= i < rest.len() && !left_to_child(children, (#[trigger] rest[i]).name)
                        && at_or_below(op_dest(first[k]), join_path(dir, rest[i].name));
                assert(s[i] == rest[i]);
                assert(!left_to_child(children, s[i].name) && at_or_below(
                    op_dest(ops[k]),
                    join_path(dir, s[i].name),
                ));
            } else {
                let t = k - first.len();
                let i = s.len() - 1;
                assert(ops[k] == second[t]);
                assert(s[i] == s.last());
                assert(second.len() > 0);
                assert(!left_to_child(children, s[i].name));
                assert(at_or_below(op_dest(second[t]), join_path(dir, s[i].name)));
            }
        }
        assert(under_passing(ops, dir, s, children));
    } else {
        assert(pass_through(dir, s, children).len() == 0);
    }
}

/// What the target shows at a place is a valid listing where it is a
/// directory.
pub open spec fn valid_target(target: Option<EntryView>) -> bool {
    match target {
        Some(r) => valid_listing(r.entries),
        None => true,
    }
}

/// The plan of the child at position `j` of a directory at `dest`.
pub open spec fn child_plan(
    cs: Seq<ChildView>,
    j: int,
    dest: Seq<char>,
    parent_synthetic: bool,
    target: Option<EntryView>,
) -> Result<Seq<MountOpView>, DeployErrorView> {
    plan_of(cs[j].node, join_path(dest, cs[j].name), parent_synthetic, child_of(target, cs[j].name))
}

/// Every operation is one of the plan of some child, and all that the plan
/// of a child does lands at the child's own place or below it.
pub open spec fn from_children(
    ops: Seq<MountOpView>,
    cs: Seq<ChildView>,
    dest: Seq<char>,
    parent_synthetic: bool,
    target: Option<EntryView>,
) -> bool {
    forall|k: int|
        0 <= k < ops.len() ==> exists|j: int|
            0 <= j < cs.len() && (#[trigger] child_plan(cs, j, dest, parent_synthetic, target))
                is Ok && child_plan(cs, j, dest, parent_synthetic, target)->Ok_0.contains(
                #[trigger] ops[k],
            ) && all_within(
                child_plan(cs, j, dest, parent_synthetic, target)->Ok_0,
                join_path(dest, cs[j].name),
            )
}

/// The entry that the target shows one level down is valid where the target
/// is.
pub proof fn lemma_child_target_valid(target: Option<EntryView>, name: Seq<char>)
    requires
        valid_target(target),
    ensures
        valid_target(child_of(target, name)),
        child_of(target, name) is Some ==> valid_entry(child_of(target, name)->Some_0),
{
    if child_of(target, name) is Some {
        let s = listing_of(target)->Some_0;
        lemma_find_index(s, name);
        assert(valid_entry(s[find_index(s, name)->Some_0]));
    }
}

/// All that the plan of a node does lands at the node's destination or below
/// it.
pub proof fn lemma_plan_within(
    n: NodeView,
    dest: Seq<char>,
    parent_synthetic: bool,
    target: Option<EntryView>,
)
    requires
        clean_path(dest),
        n.valid_names(),
        valid_target(target),
        plan_of(n, dest, parent_synthetic, target) is Ok,
    ensures
        all_within(plan_of(n, dest, parent_synthetic, target)->Ok_0, dest),
    decreases n,
{
    let ops = plan_of(n, dest, parent_synthetic, target)->Ok_0;
    match n.node_type {
        NodeTypeView::File { .. } => {},
        NodeTypeView::Directory { children, needs_synthetic, replace } => {
            let head = directory_head(n, dest, parent_synthetic, target);
            let visible = visible_target(n, target);
            let tail = plan_children(children, dest, needs_synthetic, visible)->Ok_0;
            lemma_plan_children_from(children, dest, needs_synthetic, visible);
            if head.len() > 1 {
                lemma_pass_through_within(dest, listing_of(target)->Some_0, children);
            }
            assert forall|k: int| 0 <= k < ops.len() implies at_or_below(
                op_dest(#[trigger] ops[k]),
                dest,
            ) by {
                if k < head.len() {
                    assert(ops[k] == head[k]);
                    if k > 0 {
                        let s = listing_of(target)->Some_0;
                        let walk = pass_through(dest, s, children);
                        assert(head[k] == walk[k - 1]);
                        let i = choose|i: int|
                            0 <= i < s.len() && !left_to_child(children, (#[trigger] s[i]).name)
                                && at_or_below(op_dest(walk[k - 1]), join_path(dest, s[i].name));
                        assert(valid_entry(s[i]));
                        lemma_join_below(dest, s[i].name);
                        lemma_below_transitive(op_dest(walk[k - 1]), join_path(dest, s[i].name), dest);
                    }
                } else {
                    let t = k - head.len();
                    assert(ops[k] == tail[t]);
                    let j = choose|j: int|
                        0 <= j < children.len() && (#[trigger] child_plan(
                            children,
                            j,
                            dest,
                            needs_synthetic,
                            visible,
                        )) is Ok && child_plan(children, j, dest, needs_synthetic, visible)->Ok_0.contains(
                            tail[t],
                        ) && all_within(
                            child_plan(children, j, dest, needs_synthetic, visible)->Ok_0,
                            join_path(dest, children[j].name),
                        );
                    let own = child_plan(children, j, dest, needs_synthetic, visible)->Ok_0;
                    let at = choose|at: int| 0 <= at < own.len() && own[at] == tail[t];
                    assert(at_or_below(op_dest(own[at]), join_path(dest, children[j].name)));
                    lemma_join_below(dest, children[j].name);
                    lemma_below_transitive(op_dest(tail[t]), join_path(dest, children[j].name), dest);
                }
            }
        },
    }
}

/// Each operation of the plan of a directory's children is one of the plan
/// of one child, and lands at that child's place or below it.
pub proof fn lemma_plan_children_from(
    cs: Seq<ChildView>,
    dest: Seq<char>,
    parent_synthetic: bool,
    target: Option<EntryView>,
)
    requires
        clean_path(dest),
        forall|i: int|
            0 <= i < cs.len() ==> valid_name((#[trigger] cs[i]).name) && cs[i].node.valid_names(),
        valid_target(target),
        plan_children(cs, dest, parent_synthetic, target) is Ok,
    ensures
        from_children(
            plan_children(cs, dest, parent_synthetic, target)->Ok_0,
            cs,
            dest,
            parent_synthetic,
            target,
        ),
    decreases cs,
{
    if cs.len() > 0 {
        let rest = cs.drop_last();
        let last = cs.last();
        let ops = plan_children(cs, dest, parent_synthetic, target)->Ok_0;
        let first = plan_children(rest, dest, parent_synthetic, target)->Ok_0;
        let second = child_plan(cs, cs.len() - 1, dest, parent_synthetic, target)->Ok_0;
        assert forall|i: int| 0 <= i < rest.len() implies valid_name((#[trigger] rest[i]).name)
            && rest[i].node.valid_names() by {
            assert(rest[i] == cs[i]);
        }
        lemma_plan_children_from(rest, dest, parent_synthetic, target);
        assert(cs[cs.len() - 1] == last);
        lemma_join_below(dest, last.name);
        lemma_child_target_valid(target, last.name);
        lemma_plan_within(
            last.node,
            join_path(dest, last.name),
            parent_synthetic,
            child_of(target, last.name),
        );
        assert forall|k: int| 0 <= k < ops.len() implies exists|j: int|
            0 <= j < cs.len() && (#[trigger] child_plan(cs, j, dest, parent_synthetic, target))
                is Ok && child_plan(cs, j, dest, parent_synthetic, target)->Ok_0.contains(
                #[trigger] ops[k],
            ) && all_within(
                child_plan(cs, j, dest, parent_synthetic, target)->Ok_0,
                join_path(dest, cs[j].name),
            ) by {
            if k < first.len() {
                assert(ops[k] == first[k]);
                let j = choose|j: int|
                    0 <= j < rest.len() && (#[trigger] child_plan(
                        rest,
                        j,
                        dest,
                        parent_synthetic,
                        target,
                    )) is Ok && child_plan(rest, j, dest, parent_synthetic, target)->Ok_0.contains(
                        first[k],
                    ) && all_within(
                        child_plan(rest, j, dest, parent_synthetic, target)->Ok_0,
                        join_path(dest, rest[j].name),
                    );
                assert(rest[j] == cs[j]);
                assert(child_plan(cs, j, dest, parent_synthetic, target) == child_plan(
                    rest,
                    j,
                    dest,
                    parent_synthetic,
                    target,
                ));
            } else {
                assert(ops[k] == second[k - first.len()]);
                assert(child_plan(cs, cs.len() - 1, dest, parent_synthetic, target) is Ok);
            }
        }
    }
}

/// The one operation that a file node plans at the path `at`: the removal
/// for a deletion, the bind from the module's path otherwise.
pub open spec fn file_op(x: NodeView, at: Seq<char>) -> MountOpView {
    match x.node_type {
        NodeTypeView::File { source_path: Some(p) } => MountOpView::BindMount {
            source: p,
            dest: at,
        },
        _ => MountOpView::RemoveOrHide { dest: at },
    }
}

/// Nothing but a file's own operation lands on the file's path. In the plan
/// of a directory whose names and target are valid, the operation of a child
/// that is a file is there, and whatever lands on that child's path is that
/// operation: where the child is a deletion, the path is removed and nothing
/// is bound, mirrored or created there.
pub proof fn lemma_file_path_is_its_own(
    n: NodeView,
    dest: Seq<char>,
    parent_synthetic: bool,
    target: Option<EntryView>,
    i: int,
)
    requires
        clean_path(dest),
        n.valid_names(),
        n.well_ordered(),
        valid_target(target),
        plan_of(n, dest, parent_synthetic, target) is Ok,
        0 <= i < n.children().len(),
        n.children()[i].node.node_type is File,
    ensures
        ({
            let at = join_path(dest, n.children()[i].name);
            let own = file_op(n.children()[i].node, at);
            let ops = plan_of(n, dest, parent_synthetic, target)->Ok_0;
            &&& ops.contains(own)
            &&& forall|k: int| 0 <= k < ops.len() && op_dest(#[trigger] ops[k]) == at ==> ops[k] == own
        }),
{
    let cs = n.children();
    let name = cs[i].name;
    let at = join_path(dest, name);
    let own = file_op(cs[i].node, at);
    let ops = plan_of(n, dest, parent_synthetic, target)->Ok_0;
    let head = directory_head(n, dest, parent_synthetic, target);
    let visible = visible_target(n, target);
    let synthetic = n.is_synthetic_dir();
    let tail = plan_children(cs, dest, synthetic, visible)->Ok_0;
    lemma_join_below(dest, name);
    lemma_sorted_lookup(cs, i);
    lemma_plan_in_name_order(cs, i, dest, synthetic, visible);
    lemma_plan_children_from(cs, dest, synthetic, visible);
    let before = plan_children(cs.take(i), dest, synthetic, visible)->Ok_0;
    assert(child_plan(cs, i, dest, synthetic, visible)->Ok_0 =~= seq![own]);
    assert(tail.take((before.len() + 1) as int)[before.len() as int] == (before + seq![own])[before.len() as int]);
    assert(ops[(head.len() + before.len()) as int] == own);
    if head.len() > 1 {
        lemma_pass_through_within(dest, listing_of(target)->Some_0, cs);
    }
    assert forall|k: int| 0 <= k < ops.len() && op_dest(#[trigger] ops[k]) == at implies ops[k]
        == own by {
        if k < head.len() {
            assert(ops[k] == head[k]);
            if k > 0 {
                let s = listing_of(target)->Some_0;
                let walk = pass_through(dest, s, cs);
                assert(head[k] == walk[k - 1]);
                let e = choose|e: int|
                    0 <= e < s.len() && !left_to_child(cs, (#[trigger] s[e]).name) && at_or_below(
                        op_dest(walk[k - 1]),
                        join_path(dest, s[e].name),
                    );
                assert(valid_entry(s[e]));
                lemma_names_apart(dest, s[e].name, name, op_dest(walk[k - 1]), at);
            }
        } else {
            let t = k - head.len();
            assert(ops[k] == tail[t]);
            let j = choose|j: int|
                0 <= j < cs.len() && (#[trigger] child_plan(cs, j, dest, synthetic, visible)) is Ok
                    && child_plan(cs, j, dest, synthetic, visible)->Ok_0.contains(tail[t])
                    && all_within(
                    child_plan(cs, j, dest, synthetic, visible)->Ok_0,
                    join_path(dest, cs[j].name),
                );
            let theirs = child_plan(cs, j, dest, synthetic, visible)->Ok_0;
            let pos = choose|pos: int| 0 <= pos < theirs.len() && theirs[pos] == tail[t];
            if j != i {
                assert(at_or_below(op_dest(theirs[pos]), join_path(dest, cs[j].name)));
                lemma_name_lt_irreflexive(name);
                if j < i {
                    assert(name_lt(cs[j].name, cs[i].name));
                } else {
                    assert(name_lt(cs[i].name, cs[j].name));
                }
                lemma_names_apart(dest, cs[j].name, name, op_dest(tail[t]), at);
            }
        }
    }
}

/// The path below `dir` that a path of names leads to.
pub open spec fn path_at(dir: Seq<char>, path: Seq<Seq<char>>) -> Seq<char>
    decreases path.len(),
{
    if path.len() == 0 {
        dir
    } else {
        path_at(join_path(dir, path[0]), path.drop_first())
    }
}

/// The names of the children are valid, and so are all names below them.
pub open spec fn valid_children(cs: Seq<ChildView>) -> bool {
    forall|i: int|
        0 <= i < cs.len() ==> valid_name((#[trigger] cs[i]).name) && cs[i].node.valid_names()
}

/// A path of names that leads to a node of a tree leads to a clean path at
/// or below the place of the tree, and below it where the path is not empty.
pub proof fn lemma_path_at_within(n: NodeView, dir: Seq<char>, path: Seq<Seq<char>>)
    requires
        clean_path(dir),
        n.valid_names(),
        descend(n, path) is Some,
    ensures
        clean_path(path_at(dir, path)),
        at_or_below(path_at(dir, path), dir),
        path.len() > 0 ==> below(path_at(dir, path), dir),
    decreases path.len(),
{
    if path.len() > 0 {
        let cs = n.children();
        lemma_descend_step(n, path);
        lemma_child_index(cs, path[0]);
        let i = child_index(cs, path[0])->Some_0;
        assert(valid_name(cs[i].name) && cs[i].node.valid_names());
        lemma_join_below(dir, path[0]);
        lemma_path_at_within(cs[i].node, join_path(dir, path[0]), path.drop_first());
        lemma_below_transitive(path_at(dir, path), join_path(dir, path[0]), dir);
    }
}

/// The walk never lands on the path of a file of the tree, at any depth.
pub proof fn lemma_walk_avoids(
    dir: Seq<char>,
    s: Seq<EntryView>,
    cs: Seq<ChildView>,
    path: Seq<Seq<char>>,
)
    requires
        clean_path(dir),
        valid_listing(s),
        valid_children(cs),
        path.len() > 0,
        get_child(cs, path[0]) is Some,
        descend(get_child(cs, path[0])->Some_0, path.drop_first()) is Some,
        descend(get_child(cs, path[0])->Some_0, path.drop_first())->Some_0.node_type is File,
    ensures
        forall|k: int|
            0 <= k < pass_through(dir, s, cs).len() ==> op_dest(
                #[trigger] pass_through(dir, s, cs)[k],
            ) != path_at(dir, path),
    decreases s,
{
    if s.len() > 0 {
        let rest = s.drop_last();
        let r = s.last();
        let a = path[0];
        let c = get_child(cs, a)->Some_0;
        let deeper = path.drop_first();
        let p = join_path(dir, a);
        let at = path_at(dir, path);
        assert(valid_listing(rest)) by {
            assert forall|i: int| 0 <= i < rest.len() implies valid_entry(#[trigger] rest[i]) by {
                assert(rest[i] == s[i]);
            }
        }
        assert(valid_entry(s[s.len() - 1]));
        lemma_walk_avoids(dir, rest, cs, path);
        lemma_child_index(cs, a);
        let i = child_index(cs, a)->Some_0;
        assert(valid_name(cs[i].name) && cs[i].node.valid_names());
        lemma_join_below(dir, a);
        lemma_path_at_within(c, p, deeper);
        let first = pass_through(dir, rest, cs);
        let second = pass_entry(dir, r, cs);
        let ops = pass_through(dir, s, cs);
        lemma_pass_entry_within(dir, r, cs);
        if r.name == a && second.len() > 0 {
            assert(c.node_type is Directory);
            assert(deeper.len() > 0) by {
                if deeper.len() == 0 {
                    assert(descend(c, deeper) == Some(c));
                }
            }
            lemma_descend_step(c, deeper);
            lemma_walk_avoids(p, r.entries, c.children(), deeper);
        }
        assert forall|k: int| 0 <= k < ops.len() implies op_dest(#[trigger] ops[k]) != at by {
            if k < first.len() {
                assert(ops[k] == first[k]);
            } else {
                let t = k - first.len();
                assert(ops[k] == second[t]);
                assert(at_or_below(op_dest(second[t]), join_path(dir, r.name)));
                if r.name != a {
                    lemma_names_apart(dir, r.name, a, op_dest(second[t]), at);
                } else if t > 0 {
                    let inner = pass_through(p, r.entries, c.children());
                    assert(second[t] == inner[t - 1]);
                }
            }
        }
    }
}

/// Nothing but a file's own operation lands on the file's path, at any
/// depth. In the plan of a node whose names and target are valid, the
/// operation of a file of its tree is there, and whatever lands on that
/// file's path is that operation: where the file is a deletion, the path is
/// removed and nothing is bound, mirrored or created there.
pub proof fn lemma_only_own_lands(
    n: NodeView,
    dest: Seq<char>,
    parent_synthetic: bool,
    target: Option<EntryView>,
    path: Seq<Seq<char>>,
)
    requires
        clean_path(dest),
        n.valid_names(),
        n.well_ordered(),
        valid_target(target),
        plan_of(n, dest, parent_synthetic, target) is Ok,
        path.len() > 0,
        descend(n, path) is Some,
        descend(n, path)->Some_0.node_type is File,
    ensures
        ({
            let at = path_at(dest, path);
            let own = file_op(descend(n, path)->Some_0, at);
            let ops = plan_of(n, dest, parent_synthetic, target)->Ok_0;
            &&& ops.contains(own)
            &&& forall|k: int| 0 <= k < ops.len() && op_dest(#[trigger] ops[k]) == at ==> ops[k] == own
        }),
    decreases path.len(),
{
    let cs = n.children();
    let a = path[0];
    let deeper = path.drop_first();
    lemma_descend_step(n, path);
    lemma_child_index(cs, a);
    let i = child_index(cs, a)->Some_0;
    let c = cs[i].node;
    assert(valid_name(cs[i].name) && c.valid_names() && c.well_ordered());
    if deeper.len() == 0 {
        assert(descend(c, deeper) == Some(c));
        assert(path_at(join_path(dest, a), deeper) == join_path(dest, a));
        lemma_file_path_is_its_own(n, dest, parent_synthetic, target, i);
    } else {
        let p = join_path(dest, a);
        let at = path_at(dest, path);
        let x = descend(n, path)->Some_0;
        let own = file_op(x, at);
        let ops = plan_of(n, dest, parent_synthetic, target)->Ok_0;
        let head = directory_head(n, dest, parent_synthetic, target);
        let visible = visible_target(n, target);
        let synthetic = n.is_synthetic_dir();
        let tail = plan_children(cs, dest, synthetic, visible)->Ok_0;
        lemma_join_below(dest, a);
        lemma_path_at_within(c, p, deeper);
        lemma_below_transitive(at, p, dest);
        lemma_plan_in_name_order(cs, i, dest, synthetic, visible);
        lemma_plan_children_from(cs, dest, synthetic, visible);
        lemma_child_target_valid(visible, a);
        lemma_only_own_lands(c, p, synthetic, child_of(visible, a), deeper);
        let before = plan_children(cs.take(i), dest, synthetic, visible)->Ok_0;
        let theirs = child_plan(cs, i, dest, synthetic, visible)->Ok_0;
        let pos = choose|pos: int| 0 <= pos < theirs.len() && theirs[pos] == own;
        assert(tail.take((before.len() + theirs.len()) as int)[before.len() + pos] == (before
            + theirs)[before.len() + pos]);
        assert(ops[head.len() + before.len() + pos] == own);
        if head.len() > 1 {
            lemma_walk_avoids(dest, listing_of(target)->Some_0, cs, path);
        }
        assert forall|k: int| 0 <= k < ops.len() && op_dest(#[trigger] ops[k]) == at implies ops[k]
            == own by {
            if k < head.len() {
                assert(ops[k] == head[k]);
                if k > 0 {
                    let walk = pass_through(dest, listing_of(target)->Some_0, cs);
                    assert(head[k] == walk[k - 1]);
                }
            } else {
                let t = k - head.len();
                assert(ops[k] == tail[t]);
                let j = choose|j: int|
                    0 <= j < cs.len() && (#[trigger] child_plan(cs, j, dest, synthetic, visible))
                        is Ok && child_plan(cs, j, dest, synthetic, visible)->Ok_0.contains(tail[t])
                        && all_within(
                        child_plan(cs, j, dest, synthetic, visible)->Ok_0,
                        join_path(dest, cs[j].name),
                    );
                let from = child_plan(cs, j, dest, synthetic, visible)->Ok_0;
                let q = choose|q: int| 0 <= q < from.len() && from[q] == tail[t];
                if j != i {
                    assert(at_or_below(op_dest(from[q]), join_path(dest, cs[j].name)));
                    lemma_name_lt_irreflexive(a);
                    if j < i {
                        assert(name_lt(cs[j].name, cs[i].name));
                    } else {
                        assert(name_lt(cs[i].name, cs[j].name));
                    }
                    lemma_names_apart(dest, cs[j].name, a, op_dest(tail[t]), at);
                }
            }
        }
    }
}

} // verus!
