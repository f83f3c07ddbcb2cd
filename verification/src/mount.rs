use vstd::prelude::*;
use crate::error::DeployError;
use crate::error::DeployErrorView;
use crate::names::join;
use crate::names::join_path;
use crate::names::name_lt;
use crate::node::Child;
use crate::node::children_view;
use crate::node::ChildView;
use crate::node::find_child;
use crate::node::get_child;
use crate::node::lemma_children_view;
use crate::node::Node;
use crate::node::NodeType;
use crate::node::NodeTypeView;
use crate::node::NodeView;
use crate::node::sorted;
use crate::snapshot::child_of;
use crate::snapshot::DirEntry;
use crate::snapshot::EntryView;
use crate::snapshot::lemma_listing_view;
use crate::snapshot::listing_of;
use crate::snapshot::listing_view;
use crate::snapshot::lookup;
use crate::snapshot::opt_view;

verus! {

/// One operation that the backend is asked to perform.
#[derive(Debug)]
pub enum MountOp {
    /// Create a fresh synthetic directory at `path`.
    CreateSyntheticDirectory { path: String },
    /// Create a plain directory at `path`, inside a synthetic parent.
    CreateDirectory { path: String },
    /// Bind `source` over `dest`.
    BindMount { source: String, dest: String },
    /// Remove or hide `dest`.
    RemoveOrHide { dest: String },
}

/// A `MountOp` as a mathematical value.
pub enum MountOpView {
    CreateSyntheticDirectory { path: Seq<char> },
    CreateDirectory { path: Seq<char> },
    BindMount { source: Seq<char>, dest: Seq<char> },
    RemoveOrHide { dest: Seq<char> },
}

impl View for MountOp {
    type V = MountOpView;

    open spec fn view(&self) -> MountOpView {
        match self {
            MountOp::CreateSyntheticDirectory { path } => MountOpView::CreateSyntheticDirectory {
                path: path@,
            },
            MountOp::CreateDirectory { path } => MountOpView::CreateDirectory { path: path@ },
            MountOp::BindMount { source, dest } => MountOpView::BindMount {
                source: source@,
                dest: dest@,
            },
            MountOp::RemoveOrHide { dest } => MountOpView::RemoveOrHide { dest: dest@ },
        }
    }
}

/// The values of a run of operations.
pub open spec fn ops_view(v: Seq<MountOp>) -> Seq<MountOpView> {
    Seq::new(v.len(), |i: int| v[i]@)
}

/// What passes a target entry through into the synthetic directory `dir`: a
/// directory is created again and its contents follow it, entry by entry; a
/// file is bound from its own path.
pub open spec fn mirror_entry(dir: Seq<char>, r: EntryView) -> Seq<MountOpView>
    decreases r,
{
    let p = join_path(dir, r.name);
    if r.is_dir {
        seq![MountOpView::CreateDirectory { path: p }] + mirror_listing(p, r.entries)
    } else {
        seq![MountOpView::BindMount { source: p, dest: p }]
    }
}

/// What passes a whole listing through into the synthetic directory `dir`.
pub open spec fn mirror_listing(dir: Seq<char>, s: Seq<EntryView>) -> Seq<MountOpView>
    decreases s,
{
    if s.len() == 0 {
        Seq::empty()
    } else {
        mirror_listing(dir, s.drop_last()) + mirror_entry(dir, s.last())
    }
}

/// Whether a directory node hides what the target holds at its path: it is
/// made synthetic and a module marked it for replacement.
pub open spec fn hides_target(n: NodeView) -> bool {
    n.is_synthetic_dir() && n.is_replaced_dir()
}

/// What passes through of one target entry into the synthetic directory
/// `dir` whose node has the given children. An entry whose name no child
/// bears passes through with all that lies below it. Where a child bears the
/// name, the entry is left to the child, which creates or binds or removes at
/// that path itself. The one child that takes no action of its own is a
/// directory that is not made synthetic: where the entry is a directory too,
/// it is created again here and what the target holds in it passes through in
/// the same way, against the children of that child.
pub open spec fn pass_entry(dir: Seq<char>, r: EntryView, children: Seq<ChildView>) -> Seq<
    MountOpView,
>
    decreases r,
{
    let p = join_path(dir, r.name);
    match get_child(children, r.name) {
        None => mirror_entry(dir, r),
        Some(x) => if r.is_dir && x.node_type is Directory && !x.is_synthetic_dir() {
            seq![MountOpView::CreateDirectory { path: p }] + pass_through(
                p,
                r.entries,
                x.children(),
            )
        } else {
            Seq::empty()
        },
    }
}

/// What passes through of a target listing into the synthetic directory
/// `dir` whose node has the given children: a walk of the listing in
/// pre-order that leaves out what the tree overrides.
pub open spec fn pass_through(dir: Seq<char>, s: Seq<EntryView>, children: Seq<ChildView>) -> Seq<
    MountOpView,
>
    decreases s,
{
    if s.len() == 0 {
        Seq::empty()
    } else {
        pass_through(dir, s.drop_last(), children) + pass_entry(dir, s.last(), children)
    }
}

/// What the operations before a directory's children are: nothing for a
/// directory that is not made synthetic; else the creation of the directory
/// at its destination, as a plain directory under a parent that is synthetic
/// already and as a synthetic directory under one that is not, and after it
/// the walk of what the target directory holds, unless the node hides the
/// target or the target has no directory there.
pub open spec fn directory_head(
    n: NodeView,
    dest: Seq<char>,
    parent_synthetic: bool,
    target: Option<EntryView>,
) -> Seq<MountOpView> {
    if !n.is_synthetic_dir() {
        Seq::empty()
    } else {
        let created = if parent_synthetic {
            MountOpView::CreateDirectory { path: dest }
        } else {
            MountOpView::CreateSyntheticDirectory { path: dest }
        };
        if hides_target(n) || listing_of(target) is None {
            seq![created]
        } else {
            seq![created] + pass_through(dest, listing_of(target)->Some_0, n.children())
        }
    }
}

/// What of the target shows below a directory node: nothing where the node
/// hides the target, else the target entry itself.
pub open spec fn visible_target(n: NodeView, target: Option<EntryView>) -> Option<EntryView> {
    if hides_target(n) {
        None
    } else {
        target
    }
}

/// The operations that apply a node at `dest`, or the error that ends the
/// pass. `target` is what the target shows at `dest`, `None` where it shows
/// nothing.
///
/// A directory that needs no synthetic directory is left as the target has
/// it. One that needs it is created at its destination: as a plain directory
/// under a parent that is synthetic already, as a synthetic directory under a
/// parent that is not. Into it passes through what the target directory holds
/// and the tree does not override. Under a parent that is not synthetic the
/// pass fails where the target directory cannot be opened. A directory that is
/// marked for replacement overrides all that the target holds there, so
/// nothing passes through and nothing is opened. In each case the children follow in the order of their
/// names, with the directory's own decision handed down. A file is removed
/// where it stands for a deletion, and bound from the module's path otherwise.
pub open spec fn plan_of(
    n: NodeView,
    dest: Seq<char>,
    parent_synthetic: bool,
    target: Option<EntryView>,
) -> Result<Seq<MountOpView>, DeployErrorView>
    decreases n,
{
    match n.node_type {
        NodeTypeView::File { source_path: None } => Ok(seq![MountOpView::RemoveOrHide { dest }]),
        NodeTypeView::File { source_path: Some(p) } => Ok(
            seq![MountOpView::BindMount { source: p, dest }],
        ),
        NodeTypeView::Directory { children, needs_synthetic, replace } => {
            if needs_synthetic && !parent_synthetic && !replace && listing_of(target) is None {
                Err(DeployErrorView::DirectoryOpen { path: dest })
            } else {
                match plan_children(
                    children,
                    dest,
                    needs_synthetic,
                    visible_target(n, target),
                ) {
                    Err(e) => Err(e),
                    Ok(ops) => Ok(directory_head(n, dest, parent_synthetic, target) + ops),
                }
            }
        },
    }
}

/// The operations that apply the children of the directory at `dest` one
/// after the other, or the first error met.
pub open spec fn plan_children(
    cs: Seq<ChildView>,
    dest: Seq<char>,
    parent_synthetic: bool,
    target: Option<EntryView>,
) -> Result<Seq<MountOpView>, DeployErrorView>
    decreases cs,
{
    if cs.len() == 0 {
        Ok(Seq::empty())
    } else {
        match plan_children(cs.drop_last(), dest, parent_synthetic, target) {
            Err(e) => Err(e),
            Ok(ops) => match plan_of(
                cs.last().node,
                join_path(dest, cs.last().name),
                parent_synthetic,
                child_of(target, cs.last().name),
            ) {
                Err(e) => Err(e),
                Ok(more) => Ok(ops + more),
            },
        }
    }
}

/// The node as the root of a mount: the root itself is never made synthetic,
/// whatever was decided for it.
pub open spec fn as_root(n: NodeView) -> NodeView {
    match n.node_type {
        NodeTypeView::Directory { children, replace, .. } => NodeView {
            node_type: NodeTypeView::Directory { children, needs_synthetic: false, replace },
            target_attr: n.target_attr,
        },
        NodeTypeView::File { .. } => n,
    }
}

/// The plan of the first `k` children is the beginning of the plan of all.
pub proof fn lemma_plan_prefix(
    cs: Seq<ChildView>,
    k: int,
    dest: Seq<char>,
    parent_synthetic: bool,
    target: Option<EntryView>,
)
    requires
        0 <= k <= cs.len(),
        plan_children(cs, dest, parent_synthetic, target) is Ok,
    ensures
        plan_children(cs.take(k), dest, parent_synthetic, target) is Ok,
        plan_children(cs.take(k), dest, parent_synthetic, target)->Ok_0.len() <= plan_children(
            cs,
            dest,
            parent_synthetic,
            target,
        )->Ok_0.len(),
        plan_children(cs, dest, parent_synthetic, target)->Ok_0.take(
            plan_children(cs.take(k), dest, parent_synthetic, target)->Ok_0.len() as int,
        ) == plan_children(cs.take(k), dest, parent_synthetic, target)->Ok_0,
    decreases cs.len(),
{
    let all = plan_children(cs, dest, parent_synthetic, target)->Ok_0;
    if k == cs.len() {
        assert(cs.take(k) =~= cs);
        assert(all.take(all.len() as int) =~= all);
    } else {
        let rest = cs.drop_last();
        assert(rest.take(k) =~= cs.take(k));
        lemma_plan_prefix(rest, k, dest, parent_synthetic, target);
        let shorter = plan_children(rest, dest, parent_synthetic, target)->Ok_0;
        let first = plan_children(cs.take(k), dest, parent_synthetic, target)->Ok_0;
        assert(all.take(first.len() as int) =~= shorter.take(first.len() as int));
    }
}

/// Under the invariant of trees the children of a directory are planned in
/// the strict order of their names: the plan begins with the plan of the
/// children whose names sort before a child's, and the child's own plan
/// follows it directly.
pub proof fn lemma_plan_in_name_order(
    cs: Seq<ChildView>,
    i: int,
    dest: Seq<char>,
    parent_synthetic: bool,
    target: Option<EntryView>,
)
    requires
        sorted(cs),
        0 <= i < cs.len(),
        plan_children(cs, dest, parent_synthetic, target) is Ok,
    ensures
        forall|j: int| 0 <= j < i ==> name_lt((#[trigger] cs[j]).name, cs[i].name),
        forall|j: int| i < j < cs.len() ==> name_lt(cs[i].name, (#[trigger] cs[j]).name),
        plan_children(cs.take(i), dest, parent_synthetic, target) is Ok,
        plan_of(
            cs[i].node,
            join_path(dest, cs[i].name),
            parent_synthetic,
            child_of(target, cs[i].name),
        ) is Ok,
        ({
            let before = plan_children(cs.take(i), dest, parent_synthetic, target)->Ok_0;
            let own = plan_of(
                cs[i].node,
                join_path(dest, cs[i].name),
                parent_synthetic,
                child_of(target, cs[i].name),
            )->Ok_0;
            let all = plan_children(cs, dest, parent_synthetic, target)->Ok_0;
            before.len() + own.len() <= all.len() && all.take(
                (before.len() + own.len()) as int,
            ) == before + own
        }),
{
    lemma_plan_prefix(cs, i + 1, dest, parent_synthetic, target);
    let upto = cs.take(i + 1);
    assert(upto.drop_last() =~= cs.take(i));
    assert(upto.last() == cs[i]);
}

/// A directory that is made synthetic is created at its destination before
/// anything else is done there: as a plain directory under a parent that is
/// synthetic already, as a synthetic directory under one that is not.
pub proof fn lemma_synthetic_directory_is_created(
    n: NodeView,
    dest: Seq<char>,
    parent_synthetic: bool,
    target: Option<EntryView>,
)
    requires
        n.is_synthetic_dir(),
        plan_of(n, dest, parent_synthetic, target) is Ok,
    ensures
        plan_of(n, dest, parent_synthetic, target)->Ok_0.len() > 0,
        plan_of(n, dest, parent_synthetic, target)->Ok_0[0] == if parent_synthetic {
            MountOpView::CreateDirectory { path: dest }
        } else {
            MountOpView::CreateSyntheticDirectory { path: dest }
        },
{
}

/// The root of a mount is never made synthetic: whatever was decided for it,
/// its plan is the plan of its children under a parent that is not synthetic,
/// with nothing created or hidden at the root itself.
pub proof fn lemma_root_is_left(n: NodeView, dest: Seq<char>, target: Option<EntryView>)
    requires
        n.node_type is Directory,
    ensures
        !as_root(n).is_synthetic_dir(),
        as_root(n).children() == n.children(),
        plan_of(as_root(n), dest, false, target) == plan_children(
            n.children(),
            dest,
            false,
            target,
        ),
{
    let ops = plan_children(n.children(), dest, false, target);
    if ops is Ok {
        assert(Seq::<MountOpView>::empty() + ops->Ok_0 =~= ops->Ok_0);
    }
}

/// Adds to `ops` what passes the target entry `r` through into the synthetic
/// directory `dir`.
pub fn mirror(dir: &str, r: &DirEntry, ops: &mut Vec<MountOp>)
    ensures
        ops_view(final(ops)@) == ops_view(old(ops)@) + mirror_entry(dir@, r@),
    decreases r,
{
    let ghost before = ops_view(ops@);
    let p = join(dir, r.name.as_str());
    if r.is_dir {
        let n = r.entries.len();
        ops.push(MountOp::CreateDirectory { path: p.clone() });
        let ghost head = seq![MountOpView::CreateDirectory { path: p@ }];
        assert(ops_view(ops@) =~= before + head);
        let ghost below = listing_view(r.entries@);
        proof {
            lemma_listing_view(r.entries@);
        }
        assert(below.take(0) =~= Seq::<EntryView>::empty());
        let mut i: usize = 0;
        while i < n
            invariant
                n == r.entries@.len(),
                i <= n,
                below == listing_view(r.entries@),
                below.len() == n,
                forall|j: int| 0 <= j < n ==> #[trigger] below[j] == r.entries@[j]@,
                ops_view(ops@) == before + head + mirror_listing(p@, below.take(i as int)),
            decreases n - i,
        {
            proof {
                assert(below.take(i + 1).drop_last() =~= below.take(i as int));
                assert(below.take(i + 1).last() == below[i as int]);
            }
            mirror(p.as_str(), &r.entries[i], ops);
            assert(ops_view(ops@) =~= before + head + mirror_listing(p@, below.take(i + 1)));
            i = i + 1;
        }
        assert(below.take(n as int) =~= below);
        assert(before + head + mirror_listing(p@, below) =~= before + mirror_entry(dir@, r@));
    } else {
        ops.push(MountOp::BindMount { source: p.clone(), dest: p });
        assert(ops_view(ops@) =~= before + mirror_entry(dir@, r@));
    }
}

/// Adds to `ops` what passes through of the target listing into the
/// synthetic directory `dir` whose node has the given children.
pub fn mirror_untouched(
    dir: &str,
    listing: &Vec<DirEntry>,
    children: &Vec<Child>,
    ops: &mut Vec<MountOp>,
)
    ensures
        ops_view(final(ops)@) == ops_view(old(ops)@) + pass_through(
            dir@,
            listing_view(listing@),
            children_view(children@),
        ),
    decreases listing,
{
    let ghost before = ops_view(ops@);
    let ghost cs = children_view(children@);
    let ghost present = listing_view(listing@);
    proof {
        lemma_listing_view(listing@);
    }
    let n = listing.len();
    let mut i: usize = 0;
    assert(present.take(0) =~= Seq::<EntryView>::empty());
    assert(before + pass_through(dir@, present.take(0), cs) =~= before);
    while i < n
        invariant
            n == listing@.len(),
            i <= n,
            cs == children_view(children@),
            present == listing_view(listing@),
            present.len() == n,
            forall|j: int| 0 <= j < n ==> #[trigger] present[j] == listing@[j]@,
            ops_view(ops@) == before + pass_through(dir@, present.take(i as int), cs),
        decreases n - i,
    {
        proof {
            assert(present.take(i + 1).drop_last() =~= present.take(i as int));
            assert(present.take(i + 1).last() == present[i as int]);
        }
        let ghost so_far = ops_view(ops@);
        let r = &listing[i];
        match find_child(children, r.name.as_str()) {
            None => {
                mirror(dir, r, ops);
            },
            Some(x) => {
                match &x.node_type {
                    NodeType::Directory { children: below, needs_synthetic, replace } => {
                        if r.is_dir && !*needs_synthetic {
                            let p = join(dir, r.name.as_str());
                            let ghost made = seq![MountOpView::CreateDirectory { path: p@ }];
                            ops.push(MountOp::CreateDirectory { path: p.clone() });
                            assert(ops_view(ops@) =~= so_far + made);
                            mirror_untouched(p.as_str(), &r.entries, below, ops);
                            assert(ops_view(ops@) =~= so_far + (made + pass_through(
                                p@,
                                r@.entries,
                                children_view(below@),
                            )));
                        }
                    },
                    NodeType::File { .. } => {},
                }
            },
        }
        assert(ops_view(ops@) =~= so_far + pass_entry(dir@, present[i as int], cs));
        assert(ops_view(ops@) =~= before + pass_through(dir@, present.take(i + 1), cs));
        i = i + 1;
    }
    assert(present.take(n as int) =~= present);
}

impl Node {
    /// Plans the node as the root of a mount at `dest`: the root's own
    /// decision is reset, since the root itself is never made synthetic,
    /// and the operations for what lies below it are returned in the order in
    /// which they are to be performed.
    pub fn mount(&mut self, dest: &str, target: Option<&DirEntry>) -> (r: Result<
        Vec<MountOp>,
        DeployError,
    >)
        ensures
            final(self)@ == as_root(old(self)@),
            match r {
                Ok(ops) => plan_of(as_root(old(self)@), dest@, false, opt_view(target)) == Ok::<
                    Seq<MountOpView>,
                    DeployErrorView,
                >(ops_view(ops@)),
                Err(e) => plan_of(as_root(old(self)@), dest@, false, opt_view(target)) == Err::<
                    Seq<MountOpView>,
                    DeployErrorView,
                >(e@),
            },
    {
        match &mut self.node_type {
            NodeType::Directory { needs_synthetic, .. } => {
                *needs_synthetic = false;
            },
            NodeType::File { .. } => {},
        }
        self.do_mount(dest, false, target)
    }

    /// Plans the node at `dest` under a parent that is synthetic or not.
    pub fn do_mount(&self, dest: &str, parent_synthetic: bool, target: Option<&DirEntry>) -> (r:
        Result<Vec<MountOp>, DeployError>)
        ensures
            match r {
                Ok(ops) => plan_of(self@, dest@, parent_synthetic, opt_view(target)) == Ok::<
                    Seq<MountOpView>,
                    DeployErrorView,
                >(ops_view(ops@)),
                Err(e) => plan_of(self@, dest@, parent_synthetic, opt_view(target)) == Err::<
                    Seq<MountOpView>,
                    DeployErrorView,
                >(e@),
            },
        decreases self,
    {
        let mut ops: Vec<MountOp> = Vec::new();
        match &self.node_type {
            NodeType::File { source_path } => {
                match source_path {
                    None => {
                        ops.push(MountOp::RemoveOrHide { dest: dest.to_owned() });
                        assert(ops_view(ops@) =~= seq![MountOpView::RemoveOrHide { dest: dest@ }]);
                    },
                    Some(p) => {
                        ops.push(MountOp::BindMount { source: p.clone(), dest: dest.to_owned() });
                        assert(ops_view(ops@) =~= seq![
                            MountOpView::BindMount { source: p@, dest: dest@ },
                        ]);
                    },
                }
                Ok(ops)
            },
            NodeType::Directory { children, needs_synthetic, replace } => {
                let ghost cs = children_view(children@);
                proof {
                    lemma_children_view(children@);
                }
                let hides = *needs_synthetic && *replace;
                let listing: Option<&Vec<DirEntry>> = match target {
                    Some(t) => {
                        if t.is_dir {
                            Some(&t.entries)
                        } else {
                            None
                        }
                    },
                    None => None,
                };
                assert(listing_of(opt_view(target)) == match listing {
                    Some(l) => Some(listing_view(l@)),
                    None => None,
                });
                if *needs_synthetic {
                    if parent_synthetic {
                        ops.push(MountOp::CreateDirectory { path: dest.to_owned() });
                    } else {
                        if !hides && listing.is_none() {
                            return Err(DeployError::DirectoryOpen { path: dest.to_owned() });
                        }
                        ops.push(MountOp::CreateSyntheticDirectory { path: dest.to_owned() });
                    }
                    if !hides {
                        match listing {
                            None => {},
                            Some(l) => {
                                mirror_untouched(dest, l, children, &mut ops);
                            },
                        }
                    }
                }
                let visible = if hides {
                    None
                } else {
                    target
                };
                let ghost head = ops_view(ops@);
                assert(head =~= directory_head(self@, dest@, parent_synthetic, opt_view(target)));
                assert(opt_view(visible) == visible_target(self@, opt_view(target)));
                let n = children.len();
                let mut i: usize = 0;
                let ghost mut tail = Seq::<MountOpView>::empty();
                assert(cs.take(0) =~= Seq::<ChildView>::empty());
                assert(head + tail =~= head);
                while i < n
                    invariant
                        n == children@.len(),
                        i <= n,
                        cs == children_view(children@),
                        cs.len() == n,
                        self.node_type == (NodeType::Directory {
                            children: *children,
                            needs_synthetic: *needs_synthetic,
                            replace: *replace,
                        }),
                        self@.node_type == (NodeTypeView::Directory {
                            children: cs,
                            needs_synthetic: *needs_synthetic,
                            replace: *replace,
                        }),
                        !(*needs_synthetic && !parent_synthetic && !*replace && listing_of(
                            opt_view(target),
                        ) is None),
                        head == directory_head(self@, dest@, parent_synthetic, opt_view(target)),
                        opt_view(visible) == visible_target(self@, opt_view(target)),
                        forall|j: int| 0 <= j < n ==> #[trigger] cs[j] == children@[j]@,
                        ops_view(ops@) == head + tail,
                        plan_children(
                            cs.take(i as int),
                            dest@,
                            *needs_synthetic,
                            opt_view(visible),
                        ) == Ok::<
                            Seq<MountOpView>,
                            DeployErrorView,
                        >(tail),
                    decreases n - i,
                {
                    proof {
                        assert(cs.take(i + 1).drop_last() =~= cs.take(i as int));
                        assert(cs.take(i + 1).last() == cs[i as int]);
                    }
                    let child = &children[i];
                    let child_dest = join(dest, child.name.as_str());
                    let child_target = lookup(visible, child.name.as_str());
                    match child.node.do_mount(child_dest.as_str(), *needs_synthetic, child_target) {
                        Err(e) => {
                            proof {
                                lemma_plan_error_stays(
                                    cs,
                                    i + 1,
                                    dest@,
                                    *needs_synthetic,
                                    opt_view(visible),
                                );
                            }
                            return Err(e);
                        },
                        Ok(mut more) => {
                            proof {
                                tail = tail + ops_view(more@);
                            }
                            let ghost so_far = ops_view(ops@);
                            let ghost added = ops_view(more@);
                            ops.append(&mut more);
                            assert(ops_view(ops@) =~= so_far + added);
                            assert(so_far + added =~= head + tail);
                        },
                    }
                    i = i + 1;
                }
                assert(cs.take(n as int) =~= cs);
                Ok(ops)
            },
        }
    }
}

/// Once a child has failed, the error stays whatever follows.
proof fn lemma_plan_error_stays(
    cs: Seq<ChildView>,
    at: int,
    dest: Seq<char>,
    parent_synthetic: bool,
    target: Option<EntryView>,
)
    requires
        0 <= at <= cs.len(),
        plan_children(cs.take(at), dest, parent_synthetic, target) is Err,
    ensures
        plan_children(cs, dest, parent_synthetic, target) == plan_children(
            cs.take(at),
            dest,
            parent_synthetic,
            target,
        ),
    decreases cs.len(),
{
    if at < cs.len() {
        assert(cs.drop_last().take(at) =~= cs.take(at));
        lemma_plan_error_stays(cs.drop_last(), at, dest, parent_synthetic, target);
    } else {
        assert(cs.take(at) =~= cs);
    }
}

} // verus!
