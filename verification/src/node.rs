use vstd::prelude::*;
use crate::attr::FileAttr;
use crate::names::lemma_name_lt_irreflexive;
use crate::names::lemma_name_lt_total;
use crate::names::lemma_name_lt_transitive;
use crate::names::name_lt;
use crate::names::name_order;
use crate::names::Rank;
use crate::names::valid_name;

verus! {

/// A child of a directory node under its name.
#[derive(Debug)]
pub struct Child {
    pub name: String,
    pub node: Node,
}

/// What a node is: a directory with its children in the order of their names,
/// the decision whether it has to be made synthetic and whether a module
/// marked it for replacement, or a file that is bound from a module's path
/// (`Some`) or deleted from the target (`None`).
#[derive(Debug)]
pub enum NodeType {
    Directory { children: Vec<Child>, needs_synthetic: bool, replace: bool },
    File { source_path: Option<String> },
}

/// One path of the merged tree. `target_attr` holds the attributes of the same
/// path on the target, `None` where the target has no such path.
#[derive(Debug)]
pub struct Node {
    pub node_type: NodeType,
    pub target_attr: Option<FileAttr>,
}

/// A `Child` as a mathematical value.
pub struct ChildView {
    pub name: Seq<char>,
    pub node: NodeView,
}

/// A `NodeType` as a mathematical value.
pub enum NodeTypeView {
    Directory { children: Seq<ChildView>, needs_synthetic: bool, replace: bool },
    File { source_path: Option<Seq<char>> },
}

/// A `Node` as a mathematical value.
pub struct NodeView {
    pub node_type: NodeTypeView,
    pub target_attr: Option<FileAttr>,
}

/// The value of a node.
pub open spec fn node_view(n: Node) -> NodeView
    decreases n,
{
    NodeView {
        node_type: match n.node_type {
            NodeType::Directory { children, needs_synthetic, replace } => NodeTypeView::Directory {
                children: children_view(children@),
                needs_synthetic,
                replace,
            },
            NodeType::File { source_path } => NodeTypeView::File {
                source_path: match source_path {
                    Some(p) => Some(p@),
                    None => None,
                },
            },
        },
        target_attr: n.target_attr,
    }
}

/// The values of a run of children.
pub open spec fn children_view(cs: Seq<Child>) -> Seq<ChildView>
    decreases cs,
{
    if cs.len() == 0 {
        Seq::empty()
    } else {
        children_view(cs.drop_last()).push(
            ChildView { name: cs.last().name@, node: node_view(cs.last().node) },
        )
    }
}

impl View for Node {
    type V = NodeView;

    open spec fn view(&self) -> NodeView {
        node_view(*self)
    }
}

impl View for Child {
    type V = ChildView;

    open spec fn view(&self) -> ChildView {
        ChildView { name: self.name@, node: self.node@ }
    }
}

/// The values of a run of children, one by one.
pub proof fn lemma_children_view(cs: Seq<Child>)
    ensures
        children_view(cs).len() == cs.len(),
        forall|i: int| 0 <= i < cs.len() ==> #[trigger] children_view(cs)[i] == cs[i]@,
    decreases cs.len(),
{
    if cs.len() > 0 {
        lemma_children_view(cs.drop_last());
    }
}

impl NodeView {
    /// A file node that stands for a deletion.
    pub open spec fn is_deletion(self) -> bool {
        self.node_type == (NodeTypeView::File { source_path: None })
    }

    /// A directory node that has to be made synthetic.
    pub open spec fn is_synthetic_dir(self) -> bool {
        self.node_type matches NodeTypeView::Directory { needs_synthetic, .. } && needs_synthetic
    }

    /// A directory node that a module marked for replacement.
    pub open spec fn is_replaced_dir(self) -> bool {
        self.node_type matches NodeTypeView::Directory { replace, .. } && replace
    }

    /// Whether the node, as a child, makes its parent synthetic: it is a
    /// directory that is synthetic itself, a deletion, or a path that the
    /// target does not have.
    pub open spec fn demands_synthetic(self) -> bool {
        self.is_synthetic_dir() || self.is_deletion() || self.target_attr is None
    }

    /// The children of a directory node; none for a file.
    pub open spec fn children(self) -> Seq<ChildView> {
        match self.node_type {
            NodeTypeView::Directory { children, .. } => children,
            NodeTypeView::File { .. } => Seq::empty(),
        }
    }
}

/// Whether one of the children makes the directory synthetic.
pub open spec fn any_demands(cs: Seq<ChildView>) -> bool {
    exists|i: int| 0 <= i < cs.len() && (#[trigger] cs[i]).node.demands_synthetic()
}

/// The children stand in the strict order of their names.
pub open spec fn sorted(cs: Seq<ChildView>) -> bool {
    forall|i: int, j: int|
        0 <= i < j < cs.len() ==> name_lt((#[trigger] cs[i]).name, (#[trigger] cs[j]).name)
}

impl NodeView {
    /// Every name in the tree, at every depth, is not empty and has no `/`.
    pub open spec fn valid_names(self) -> bool
        decreases self,
    {
        match self.node_type {
            NodeTypeView::Directory { children, .. } => forall|i: int|
                0 <= i < children.len() ==> valid_name((#[trigger] children[i]).name)
                    && children[i].node.valid_names(),
            NodeTypeView::File { .. } => true,
        }
    }

    /// The invariant of a tree: in every directory, at every depth, the
    /// children stand in the strict order of their names, so that no name
    /// occurs twice in a directory.
    pub open spec fn well_ordered(self) -> bool
        decreases self,
    {
        match self.node_type {
            NodeTypeView::Directory { children, .. } => sorted(children) && forall|i: int|
                0 <= i < children.len() ==> (#[trigger] children[i]).node.well_ordered(),
            NodeTypeView::File { .. } => true,
        }
    }
}

/// How many children at the front sort before `name`.
pub open spec fn split_point(cs: Seq<ChildView>, name: Seq<char>) -> int
    decreases cs.len(),
{
    if cs.len() == 0 {
        0
    } else if name_lt(cs[0].name, name) {
        1 + split_point(cs.drop_first(), name)
    } else {
        0
    }
}

/// The children with one more under `name`, put where the names before it
/// end. Where that place already holds `name`, the one that is there stays
/// and the new one is dropped.
pub open spec fn insert_child(cs: Seq<ChildView>, name: Seq<char>, node: NodeView) -> Seq<
    ChildView,
> {
    let i = split_point(cs, name);
    if i < cs.len() && cs[i].name == name {
        cs
    } else {
        cs.insert(i, ChildView { name, node })
    }
}

/// The position of the child called `name`.
pub open spec fn child_index(cs: Seq<ChildView>, name: Seq<char>) -> Option<int>
    decreases cs.len(),
{
    if cs.len() == 0 {
        None
    } else if cs[0].name == name {
        Some(0int)
    } else {
        match child_index(cs.drop_first(), name) {
            Some(i) => Some(i + 1),
            None => None,
        }
    }
}

/// The child called `name`.
pub open spec fn get_child(cs: Seq<ChildView>, name: Seq<char>) -> Option<NodeView> {
    match child_index(cs, name) {
        Some(i) => Some(cs[i].node),
        None => None,
    }
}

/// `child_index` gives the least position that bears the name, and nothing
/// exactly when no position does.
pub proof fn lemma_child_index(cs: Seq<ChildView>, name: Seq<char>)
    ensures
        match child_index(cs, name) {
            Some(i) => 0 <= i < cs.len() && cs[i].name == name && forall|j: int|
                0 <= j < i ==> (#[trigger] cs[j]).name != name,
            None => forall|j: int| 0 <= j < cs.len() ==> (#[trigger] cs[j]).name != name,
        },
    decreases cs.len(),
{
    if cs.len() > 0 && cs[0].name != name {
        let t = cs.drop_first();
        lemma_child_index(t, name);
        match child_index(t, name) {
            Some(i) => {
                assert forall|j: int| 0 <= j < i + 1 implies (#[trigger] cs[j]).name != name by {
                    if j > 0 {
                        assert(t[j - 1].name != name);
                    }
                }
            },
            None => {
                assert forall|j: int| 0 <= j < cs.len() implies (#[trigger] cs[j]).name
                    != name by {
                    if j > 0 {
                        assert(t[j - 1].name != name);
                    }
                }
            },
        }
    }
}

/// `split_point` gives the first position whose name does not sort before
/// `name`.
pub proof fn lemma_split_point(cs: Seq<ChildView>, name: Seq<char>)
    ensures
        0 <= split_point(cs, name) <= cs.len(),
        forall|j: int| 0 <= j < split_point(cs, name) ==> name_lt((#[trigger] cs[j]).name, name),
        split_point(cs, name) < cs.len() ==> !name_lt(cs[split_point(cs, name)].name, name),
    decreases cs.len(),
{
    if cs.len() > 0 && name_lt(cs[0].name, name) {
        let t = cs.drop_first();
        lemma_split_point(t, name);
        assert forall|j: int| 0 <= j < split_point(cs, name) implies name_lt(
            (#[trigger] cs[j]).name,
            name,
        ) by {
            if j > 0 {
                assert(name_lt(t[j - 1].name, name));
            }
        }
    }
}

/// The first position whose name does not sort before `name` is the split
/// point.
pub proof fn lemma_split_point_is(cs: Seq<ChildView>, name: Seq<char>, i: int)
    requires
        0 <= i <= cs.len(),
        forall|j: int| 0 <= j < i ==> name_lt((#[trigger] cs[j]).name, name),
        i < cs.len() ==> !name_lt(cs[i].name, name),
    ensures
        split_point(cs, name) == i,
{
    lemma_split_point(cs, name);
    let s = split_point(cs, name);
    if s < i {
        assert(name_lt(cs[s].name, name));
    } else if i < s {
        assert(name_lt(cs[i].name, name));
    }
}

/// Children in the order of their names stay so when one more is put in, and
/// the new child is found under its name unless that name was taken.
pub proof fn lemma_insert_child(cs: Seq<ChildView>, name: Seq<char>, node: NodeView)
    requires
        sorted(cs),
    ensures
        sorted(insert_child(cs, name, node)),
        get_child(insert_child(cs, name, node), name) == if get_child(cs, name) is Some {
            get_child(cs, name)
        } else {
            Some(node)
        },
        forall|other: Seq<char>|
            other != name ==> get_child(insert_child(cs, name, node), other) == get_child(
                cs,
                other,
            ),
{
    let i = split_point(cs, name);
    let r = insert_child(cs, name, node);
    lemma_split_point(cs, name);
    lemma_child_index(cs, name);
    lemma_child_index(r, name);
    assert forall|j: int| 0 <= j < i implies (#[trigger] cs[j]).name != name by {
        lemma_name_lt_irreflexive(name);
    }
    if i < cs.len() && cs[i].name == name {
        assert(child_index(cs, name) == Some(i));
    } else {
        assert forall|j: int| i <= j < cs.len() implies name_lt(name, (#[trigger] cs[j]).name) by {
            lemma_name_lt_total(cs[i].name, name);
            if j > i {
                lemma_name_lt_transitive(name, cs[i].name, cs[j].name);
            }
        }
        assert forall|j: int| i <= j < cs.len() implies (#[trigger] cs[j]).name != name by {
            lemma_name_lt_irreflexive(name);
        }
        assert(child_index(cs, name) is None);
        assert(r[i].name == name);
        assert forall|j: int| 0 <= j < i implies (#[trigger] r[j]).name != name by {
            assert(r[j] == cs[j]);
        }
        assert(child_index(r, name) == Some(i));
        assert forall|a: int, b: int| 0 <= a < b < r.len() implies name_lt(
            (#[trigger] r[a]).name,
            (#[trigger] r[b]).name,
        ) by {
            if b < i {
                assert(r[a] == cs[a] && r[b] == cs[b]);
            } else if b == i {
                assert(r[a] == cs[a]);
            } else if a < i {
                assert(r[a] == cs[a] && r[b] == cs[b - 1]);
                if b - 1 == i {
                    lemma_name_lt_transitive(cs[a].name, name, cs[b - 1].name);
                }
            } else if a == i {
                assert(r[b] == cs[b - 1]);
            } else {
                assert(r[a] == cs[a - 1] && r[b] == cs[b - 1]);
            }
        }
        assert forall|other: Seq<char>| other != name implies get_child(r, other) == get_child(
            cs,
            other,
        ) by {
            lemma_child_index(cs, other);
            lemma_child_index(r, other);
            match child_index(cs, other) {
                Some(k) => {
                    let k2 = if k < i { k } else { k + 1 };
                    assert(r[k2] == cs[k]);
                    match child_index(r, other) {
                        Some(m) => {
                            if m < k2 {
                                if m < i {
                                    assert(r[m] == cs[m]);
                                } else if m > i {
                                    assert(r[m] == cs[m - 1]);
                                }
                            }
                        },
                        None => {},
                    }
                },
                None => {
                    match child_index(r, other) {
                        Some(m) => {
                            if m < i {
                                assert(r[m] == cs[m]);
                            } else if m > i {
                                assert(r[m] == cs[m - 1]);
                            }
                        },
                        None => {},
                    }
                },
            }
        }
    }
}

/// Puts a child under `name` into children that are kept in the order of
/// their names. Returns whether it was put in: where the name is taken, the
/// child that is there stays and the new one is dropped.
pub fn insert(children: &mut Vec<Child>, name: String, node: Node) -> (inserted: bool)
    ensures
        children_view(final(children)@) == insert_child(
            children_view(old(children)@),
            name@,
            node@,
        ),
        inserted == (children_view(final(children)@).len() == children_view(old(children)@).len()
            + 1),
        sorted(children_view(old(children)@)) ==> sorted(children_view(final(children)@)),
{
    let ghost cs = children_view(children@);
    proof {
        lemma_children_view(children@);
        if sorted(cs) {
            lemma_insert_child(cs, name@, node@);
        }
    }
    let n = children.len();
    let mut i: usize = 0;
    let mut taken = false;
    while i < n
        invariant_except_break
            !taken,
        invariant
            n == children@.len(),
            i <= n,
            children@ == old(children)@,
            cs == children_view(children@),
            cs.len() == n,
            forall|j: int| 0 <= j < n ==> #[trigger] cs[j] == children@[j]@,
            forall|j: int| 0 <= j < i ==> name_lt((#[trigger] cs[j]).name, name@),
        ensures
            i <= n,
            i < n ==> !name_lt(cs[i as int].name, name@),
            taken == (i < n && cs[i as int].name == name@),
        decreases n - i,
    {
        match name_order(children[i].name.as_str(), name.as_str()) {
            Rank::Before => {
                i = i + 1;
            },
            Rank::Same => {
                proof {
                    lemma_name_lt_irreflexive(name@);
                }
                taken = true;
                break ;
            },
            Rank::After => {
                proof {
                    lemma_name_lt_total(cs[i as int].name, name@);
                    if name_lt(cs[i as int].name, name@) {
                        lemma_name_lt_transitive(name@, cs[i as int].name, name@);
                        lemma_name_lt_irreflexive(name@);
                    }
                }
                break ;
            },
        }
    }
    proof {
        lemma_split_point_is(cs, name@, i as int);
    }
    if taken {
        false
    } else {
        let ghost c = ChildView { name: name@, node: node@ };
        children.insert(i, Child { name, node });
        proof {
            lemma_children_view(children@);
            assert(children_view(children@) =~= cs.insert(i as int, c));
        }
        true
    }
}

/// The node of the child under `name`.
pub fn find_child<'a>(children: &'a Vec<Child>, name: &str) -> (r: Option<&'a Node>)
    ensures
        match r {
            Some(n) => get_child(children_view(children@), name@) == Some(n@),
            None => get_child(children_view(children@), name@) is None,
        },
{
    proof {
        lemma_children_view(children@);
    }
    let n = children.len();
    let mut i: usize = 0;
    while i < n
        invariant
            n == children@.len(),
            i <= n,
            children_view(children@).len() == n,
            forall|j: int| 0 <= j < n ==> #[trigger] children_view(children@)[j] == children@[j]@,
            forall|j: int| 0 <= j < i ==> (#[trigger] children_view(children@)[j]).name != name@,
        decreases n - i,
    {
        if name_order(children[i].name.as_str(), name) == Rank::Same {
            proof {
                assert(children_view(children@)[i as int].name == name@);
                lemma_child_index(children_view(children@), name@);
            }
            return Some(&children[i].node);
        }
        i = i + 1;
    }
    proof {
        lemma_child_index(children_view(children@), name@);
    }
    None
}

/// Whether the children hold one under `name`.
pub fn has_child(children: &Vec<Child>, name: &str) -> (r: bool)
    ensures
        r == get_child(children_view(children@), name@) is Some,
{
    find_child(children, name).is_some()
}

/// Whether one of the children makes the directory synthetic.
pub fn any_child_demands(children: &Vec<Child>) -> (r: bool)
    ensures
        r == any_demands(children_view(children@)),
{
    proof {
        lemma_children_view(children@);
    }
    let n = children.len();
    let mut i: usize = 0;
    while i < n
        invariant
            n == children@.len(),
            i <= n,
            children_view(children@).len() == n,
            forall|j: int| 0 <= j < n ==> #[trigger] children_view(children@)[j] == children@[j]@,
            forall|j: int| 0 <= j < i ==> !(#[trigger] children_view(children@)[j]).node.demands_synthetic(),
        decreases n - i,
    {
        if children[i].node.demands_synthetic() {
            assert(children_view(children@)[i as int].node.demands_synthetic());
            return true;
        }
        i = i + 1;
    }
    false
}

impl Node {
    /// Whether the node is a directory.
    pub fn is_directory(&self) -> (r: bool)
        ensures
            r == self@.node_type is Directory,
    {
        match &self.node_type {
            NodeType::Directory { .. } => true,
            NodeType::File { .. } => false,
        }
    }

    /// Whether the node is a directory that has to be made synthetic.
    pub fn needs_synthetic(&self) -> (r: bool)
        ensures
            r == self@.is_synthetic_dir(),
    {
        match &self.node_type {
            NodeType::Directory { needs_synthetic, .. } => *needs_synthetic,
            NodeType::File { .. } => false,
        }
    }

    /// Whether the node is a directory that a module marked for replacement.
    pub fn is_replaced(&self) -> (r: bool)
        ensures
            r == self@.is_replaced_dir(),
    {
        match &self.node_type {
            NodeType::Directory { replace, .. } => *replace,
            NodeType::File { .. } => false,
        }
    }

    /// Whether the node is a file that stands for a deletion.
    pub fn is_deletion(&self) -> (r: bool)
        ensures
            r == self@.is_deletion(),
    {
        match &self.node_type {
            NodeType::Directory { .. } => false,
            NodeType::File { source_path } => source_path.is_none(),
        }
    }

    /// Whether the node, as a child, makes its parent synthetic.
    pub fn demands_synthetic(&self) -> (r: bool)
        ensures
            r == self@.demands_synthetic(),
    {
        self.needs_synthetic() || self.is_deletion() || self.target_attr.is_none()
    }

    /// The child of a directory node under `name`.
    pub fn child(&self, name: &str) -> (r: Option<&Node>)
        ensures
            match r {
                Some(n) => get_child(self@.children(), name@) == Some(n@),
                None => get_child(self@.children(), name@) is None,
            },
    {
        match &self.node_type {
            NodeType::Directory { children, .. } => find_child(children, name),
            NodeType::File { .. } => None,
        }
    }
}

} // verus!
