use vstd::prelude::*;
use crate::attr::FileAttr;
use crate::error::DeployError;
use crate::error::DeployErrorView;
use crate::laws::lemma_tree_well_ordered;
use crate::merge::Candidate;
use crate::merge::entry_of;
use crate::merge::EntryModel;
use crate::merge::Handle;
use crate::merge::handles_height;
use crate::merge::lemma_open_dirs_height;
use crate::merge::lemma_winners_need_copies;
use crate::merge::open_dirs;
use crate::merge::winners;
use crate::names::is_replace_marker;
use crate::names::join;
use crate::names::join_path;
use crate::names::replace_marker;
use crate::node::any_child_demands;
use crate::node::any_demands;
use crate::node::Child;
use crate::node::children_view;
use crate::node::ChildView;
use crate::node::get_child;
use crate::node::has_child;
use crate::node::insert;
use crate::node::insert_child;
use crate::node::Node;
use crate::node::NodeType;
use crate::node::NodeTypeView;
use crate::node::NodeView;
use crate::projection::ModuleIterator;
use crate::snapshot::child_of;
use crate::snapshot::DirEntry;
use crate::snapshot::EntryView;
use crate::snapshot::lookup;
use crate::snapshot::opt_view;

verus! {

/// A place on the target: a path and the entry that the target has there,
/// `None` where it has none.
pub struct Target {
    pub path: Seq<char>,
    pub entry: Option<EntryView>,
}

impl Target {
    /// The place one level down under `name`.
    pub open spec fn child(self, name: Seq<char>) -> Target {
        Target { path: join_path(self.path, name), entry: child_of(self.entry, name) }
    }

    /// What a probe of the place gives: no attributes where the target has no
    /// such path, the attributes of the entry where they could be read, and
    /// an error where the path is there and its attributes could not be read.
    pub open spec fn probe(self) -> Result<Option<FileAttr>, DeployErrorView> {
        match self.entry {
            None => Ok(None),
            Some(r) => match r.attr {
                Some(a) => Ok(Some(a)),
                None => Err(DeployErrorView::AttrProbe { path: self.path }),
            },
        }
    }
}

/// The node of a file entry: a deletion where the module's file is a
/// character-special file with device number 0, else a file bound from the
/// module's path. It fails where the module's attributes could not be read,
/// and then where the target's could not.
pub open spec fn file_node(e: EntryModel, target: Target) -> Result<NodeView, DeployErrorView> {
    match e.attr {
        None => Err(DeployErrorView::AttrProbe { path: e.path }),
        Some(a) => match target.probe() {
            Err(err) => Err(err),
            Ok(found) => Ok(
                NodeView {
                    node_type: NodeTypeView::File {
                        source_path: if a.spec_is_whiteout() {
                            None
                        } else {
                            Some(e.path)
                        },
                    },
                    target_attr: found,
                },
            ),
        },
    }
}

/// The node of a directory with the given children: it has to be made
/// synthetic where the target has no such path, where it is marked for
/// replacement, or where one of its children demands it. The mark itself is
/// kept for the planner.
pub open spec fn directory_node(
    children: Seq<ChildView>,
    replaced: bool,
    found: Option<FileAttr>,
) -> NodeView {
    NodeView {
        node_type: NodeTypeView::Directory {
            children,
            needs_synthetic: found is None || replaced || any_demands(children),
            replace: replaced,
        },
        target_attr: found,
    }
}

/// Whether the merge of the copies yields the replacement sentinel at or
/// after position `from`.
pub open spec fn replaced(hs: Seq<Handle>, from: nat) -> bool {
    exists|i: int|
        from <= i < winners(hs).len() && (#[trigger] winners(hs)[i]).name() == replace_marker()
}

/// The directory node that is built from what the merge of the copies `hs`
/// yields from position `from` on, against the place of the same path on the
/// target. It fails with the first error of its children, and after them
/// where the attributes of the directory's own target path could not be read.
pub open spec fn tree_of(hs: Seq<Handle>, from: nat, target: Target) -> Result<
    NodeView,
    DeployErrorView,
>
    decreases handles_height(hs), 1nat, 0nat,
{
    match children_of(hs, from, winners(hs).len(), target) {
        Err(e) => Err(e),
        Ok(cs) => match target.probe() {
            Err(e) => Err(e),
            Ok(found) => Ok(directory_node(cs, replaced(hs, from), found)),
        },
    }
}

/// The children built from the entries that the merge yields at the
/// positions from `from` up to `upto`, or the first error met on the way. The
/// sentinel gives no child, a name that is taken is dropped, a directory
/// gives the tree of every module's copy of it, a file its file node.
pub open spec fn children_of(
    hs: Seq<Handle>,
    from: nat,
    upto: nat,
    target: Target,
) -> Result<Seq<ChildView>, DeployErrorView>
    decreases handles_height(hs), 0nat, upto,
{
    if upto <= from || upto > winners(hs).len() {
        Ok(Seq::empty())
    } else {
        match children_of(hs, from, (upto - 1) as nat, target) {
            Err(e) => Err(e),
            Ok(cs) => {
                let c = winners(hs)[upto - 1];
                if c.name() == replace_marker() || get_child(cs, c.name()) is Some {
                    Ok(cs)
                } else {
                    let node = if c.entry.is_dir {
                        proof {
                            lemma_winners_need_copies(hs);
                            lemma_open_dirs_height(hs, c.name());
                        }
                        tree_of(open_dirs(hs, c.name()), 0, target.child(c.name()))
                    } else {
                        file_node(entry_of(hs, c), target.child(c.name()))
                    };
                    match node {
                        Err(e) => Err(e),
                        Ok(n) => Ok(insert_child(cs, c.name(), n)),
                    }
                }
            },
        }
    }
}

/// The node that stands for one entry of the merge of `hs`, in a directory
/// whose place on the target is `target`: for a directory the tree of every module's
/// copy of it, for a file its file node.
pub open spec fn entry_node(hs: Seq<Handle>, c: Candidate, target: Target) -> Result<
    NodeView,
    DeployErrorView,
> {
    if c.entry.is_dir {
        tree_of(open_dirs(hs, c.name()), 0, target.child(c.name()))
    } else {
        file_node(entry_of(hs, c), target.child(c.name()))
    }
}

/// How the children grow by the entry at position `k`.
pub proof fn lemma_children_step(hs: Seq<Handle>, from: nat, k: nat, target: Target)
    requires
        from <= k < winners(hs).len(),
    ensures
        hs.len() > 0,
        children_of(hs, from, k + 1, target) == match children_of(hs, from, k, target) {
            Err(e) => Err(e),
            Ok(cs) => {
                let c = winners(hs)[k as int];
                if c.name() == replace_marker() || get_child(cs, c.name()) is Some {
                    Ok(cs)
                } else {
                    match entry_node(hs, c, target) {
                        Err(e) => Err(e),
                        Ok(n) => Ok(insert_child(cs, c.name(), n)),
                    }
                }
            },
        },
{
    lemma_winners_need_copies(hs);
}

/// Once an entry has failed, the error stays whatever follows.
proof fn lemma_error_stays(
    hs: Seq<Handle>,
    from: nat,
    at: nat,
    upto: nat,
    target: Target,
)
    requires
        at <= upto <= winners(hs).len(),
        children_of(hs, from, at, target) is Err,
    ensures
        children_of(hs, from, upto, target) == children_of(hs, from, at, target),
    decreases upto,
{
    if at < upto {
        lemma_error_stays(hs, from, at, (upto - 1) as nat, target);
    }
}

/// Probes the place `path` on the target, whose entry there is `target`: it
/// fails where the entry is there and its attributes could not be read.
pub fn probe(path: &str, target: Option<&DirEntry>) -> (r: Result<Option<FileAttr>, DeployError>)
    ensures
        match r {
            Ok(found) => (Target { path: path@, entry: opt_view(target) }).probe() == Ok::<
                Option<FileAttr>,
                DeployErrorView,
            >(found),
            Err(e) => (Target { path: path@, entry: opt_view(target) }).probe() == Err::<
                Option<FileAttr>,
                DeployErrorView,
            >(e@),
        },
{
    match target {
        None => Ok(None),
        Some(t) => match t.attr {
            Some(a) => Ok(Some(a)),
            None => Err(DeployError::AttrProbe { path: path.to_owned() }),
        },
    }
}

/// The place on the target of the level that a projection stands for, under
/// the directory `base`.
pub open spec fn level_target(base: Seq<char>, name: Seq<char>, target: Option<EntryView>)
    -> Target {
    Target { path: join_path(base, name), entry: target }
}

/// Builds the directory node of one level from what its merged projection
/// still yields. The level lies under the directory `base` of the target by
/// the projection's name, and `target` is the target's entry of that path
/// (`None` where the target has none). It fails with the first attribute
/// probe that failed, of a module's file or of a path of the target, and with
/// nothing else.
pub fn tree_module<'a>(base: &str, target: Option<&DirEntry>, dir: &mut ModuleIterator<'a>) -> (r:
    Result<Node, DeployError>)
    requires
        old(dir).wf(),
    ensures
        final(dir).wf(),
        final(dir).handles() == old(dir).handles(),
        final(dir).name_view() == old(dir).name_view(),
        match r {
            Ok(node) => tree_of(
                old(dir).handles(),
                old(dir).yielded(),
                level_target(base@, old(dir).name_view(), opt_view(target)),
            ) == Ok::<NodeView, DeployErrorView>(node@) && node@.well_ordered()
                && final(dir).remaining().len() == 0,
            Err(e) => tree_of(
                old(dir).handles(),
                old(dir).yielded(),
                level_target(base@, old(dir).name_view(), opt_view(target)),
            ) == Err::<NodeView, DeployErrorView>(e@),
        },
    decreases handles_height(old(dir).handles()),
{
    let ghost hs = dir.handles();
    let ghost w = winners(hs);
    let ghost from = dir.yielded();
    let ghost place = level_target(base@, dir.name_view(), opt_view(target));
    let path = join(base, dir.name());
    let mut children: Vec<Child> = Vec::new();
    let mut has_replace = false;
    proof {
        dir.lemma_yielded_in_range();
    }
    loop
        invariant
            dir.wf(),
            dir.handles() == hs,
            hs == old(dir).handles(),
            dir.name_view() == old(dir).name_view(),
            w == winners(hs),
            from == old(dir).yielded(),
            from <= dir.yielded() <= w.len(),
            place == level_target(base@, old(dir).name_view(), opt_view(target)),
            path@ == place.path,
            children_of(hs, from, dir.yielded(), place) == Ok::<Seq<ChildView>, DeployErrorView>(
                children_view(children@),
            ),
            has_replace == exists|i: int|
                from <= i < dir.yielded() && (#[trigger] w[i]).name() == replace_marker(),
        ensures
            dir.wf(),
            dir.handles() == hs,
            dir.name_view() == old(dir).name_view(),
            dir.yielded() == w.len(),
            children_of(hs, from, w.len(), place) == Ok::<Seq<ChildView>, DeployErrorView>(
                children_view(children@),
            ),
            has_replace == replaced(hs, from),
        decreases w.len() - dir.yielded(),
    {
        let ghost k = dir.yielded();
        proof {
            dir.lemma_yielded_in_range();
        }
        match dir.next() {
            None => {
                break ;
            },
            Some(e) => {
                let ghost c = w[k as int];
                proof {
                    dir.lemma_yielded_in_range();
                    assert(dir.all()[k as int] == entry_of(hs, c));
                    assert(e@ == entry_of(hs, c));
                    lemma_children_step(hs, from, k, place);
                }
                if is_replace_marker(e.name()) {
                    has_replace = true;
                } else if has_child(&children, e.name()) {
                } else {
                    let child_target = lookup(target, e.name());
                    let name = e.name().to_owned();
                    if e.is_dir() {
                        let mut d = e.iter().unwrap();
                        proof {
                            lemma_open_dirs_height(hs, c.name());
                        }
                        match tree_module(path.as_str(), child_target, &mut d) {
                            Err(err) => {
                                proof {
                                    lemma_error_stays(hs, from, (k + 1) as nat, w.len(), place);
                                }
                                return Err(err);
                            },
                            Ok(node) => {
                                insert(&mut children, name, node);
                            },
                        }
                    } else {
                        let attr = match e.get_attr() {
                            Err(err) => {
                                proof {
                                    lemma_error_stays(hs, from, (k + 1) as nat, w.len(), place);
                                }
                                return Err(err);
                            },
                            Ok(a) => a,
                        };
                        let child_path = join(path.as_str(), e.name());
                        let found = match probe(child_path.as_str(), child_target) {
                            Err(err) => {
                                proof {
                                    lemma_error_stays(hs, from, (k + 1) as nat, w.len(), place);
                                }
                                return Err(err);
                            },
                            Ok(found) => found,
                        };
                        let source_path = if attr.is_whiteout() {
                            None
                        } else {
                            Some(e.path().to_owned())
                        };
                        let node = Node {
                            node_type: NodeType::File { source_path },
                            target_attr: found,
                        };
                        insert(&mut children, name, node);
                    }
                }
            },
        }
    }
    let found = match probe(path.as_str(), target) {
        Err(err) => {
            return Err(err);
        },
        Ok(found) => found,
    };
    let needs_synthetic = found.is_none() || has_replace || any_child_demands(&children);
    proof {
        lemma_tree_well_ordered(hs, from, place);
    }
    Ok(
        Node {
            node_type: NodeType::Directory { children, needs_synthetic, replace: has_replace },
            target_attr: found,
        },
    )
}

} // verus!
