use vstd::prelude::*;
use crate::attr::FileAttr;
use crate::error::DeployError;
use crate::error::DeployErrorView;
use crate::merge::Candidate;
use crate::merge::candidates;
use crate::merge::entry_of;
use crate::merge::EntryModel;
use crate::merge::fresh;
use crate::merge::Handle;
use crate::merge::open_dir;
use crate::merge::open_dirs;
use crate::merge::scan;
use crate::merge::winners;
use crate::names::join;
use crate::names::join_path;
use crate::names::name_order;
use crate::names::Rank;
use crate::snapshot::DirEntry;
use crate::snapshot::EntryView;
use crate::snapshot::find;
use crate::snapshot::lemma_find_index;
use crate::snapshot::lemma_listing_view;
use crate::snapshot::listing_view;

verus! {

/// An open directory of one module: its path and its listing.
pub struct DirHandle<'a> {
    pub path: String,
    pub entries: &'a Vec<DirEntry>,
}

impl<'a> View for DirHandle<'a> {
    type V = Handle;

    open spec fn view(&self) -> Handle {
        Handle { path: self.path@, entries: listing_view(self.entries@) }
    }
}

/// The copies that a vector of open directories stands for.
pub open spec fn handles_view<'a>(v: Seq<DirHandle<'a>>) -> Seq<Handle> {
    Seq::new(v.len(), |i: int| v[i]@)
}

/// The names that a vector of strings holds.
pub open spec fn seen_of(names: Seq<String>) -> Set<Seq<char>> {
    Set::new(|n: Seq<char>| exists|i: int| 0 <= i < names.len() && (#[trigger] names[i])@ == n)
}

/// What is still to be read when `active` copies are left and the reading of
/// the last of them stands at `cursor`.
pub open spec fn pending(hs: Seq<Handle>, active: nat, cursor: nat) -> Seq<Candidate> {
    if active == 0 || active > hs.len() {
        Seq::empty()
    } else {
        candidates(hs[active - 1]).skip(cursor as int) + scan(hs, (active - 1) as nat)
    }
}

/// Opens the subdirectory `name` in each of the directories, keeping their
/// order and leaving out those that have no such directory.
pub fn open_all<'a>(modules: &Vec<DirHandle<'a>>, name: &str) -> (r: Vec<DirHandle<'a>>)
    ensures
        handles_view(r@) == open_dirs(handles_view(modules@), name@),
{
    let ghost hs = handles_view(modules@);
    let n = modules.len();
    let mut out: Vec<DirHandle<'a>> = Vec::new();
    let mut i: usize = 0;
    assert(hs.take(0) =~= Seq::<Handle>::empty());
    while i < n
        invariant
            n == modules@.len(),
            i <= n,
            hs == handles_view(modules@),
            handles_view(out@) =~= open_dirs(hs.take(i as int), name@),
        decreases n - i,
    {
        let entries: &'a Vec<DirEntry> = modules[i].entries;
        let ghost before = handles_view(out@);
        proof {
            assert(hs.take(i + 1).drop_last() =~= hs.take(i as int));
            assert(hs.take(i + 1).last() == modules@[i as int]@);
            lemma_find_index(listing_view(entries@), name@);
        }
        match find(entries, name) {
            Some(e) => {
                if e.is_dir {
                    let path = join(modules[i].path.as_str(), name);
                    out.push(DirHandle { path, entries: &e.entries });
                    assert(handles_view(out@) =~= before.push(
                        open_dir(modules@[i as int]@, name@).unwrap(),
                    ));
                }
            },
            None => {},
        }
        i = i + 1;
    }
    assert(hs.take(n as int) =~= hs);
    out
}

/// Whether `name` is among `names`.
pub fn contains_name(names: &Vec<String>, name: &str) -> (r: bool)
    ensures
        r == seen_of(names@).contains(name@),
{
    let n = names.len();
    let mut i: usize = 0;
    while i < n
        invariant
            n == names@.len(),
            i <= n,
            forall|j: int| 0 <= j < i ==> (#[trigger] names@[j])@ != name@,
        decreases n - i,
    {
        if name_order(names[i].as_str(), name) == Rank::Same {
            return true;
        }
        i = i + 1;
    }
    false
}

/// The merged projection of one directory level: reads every module's copy
/// of the directory and yields each name once, from the copy of highest
/// precedence that lists it. A module that stands later in the sequence takes
/// precedence over an earlier one.
pub struct ModuleIterator<'a> {
    name: String,
    modules: Vec<DirHandle<'a>>,
    active: usize,
    cursor: usize,
    collected: Vec<String>,
}

/// One entry of the merged projection.
pub struct ModuleEntry<'a> {
    name: String,
    path: String,
    attr: Option<FileAttr>,
    iter: Option<ModuleIterator<'a>>,
}

impl<'a> ModuleIterator<'a> {
    /// The name of the directory level.
    pub closed spec fn name_view(&self) -> Seq<char> {
        self.name@
    }

    /// The copies of the directory that are merged, in precedence order.
    pub closed spec fn handles(&self) -> Seq<Handle> {
        handles_view(self.modules@)
    }

    /// How many entries were yielded so far.
    pub closed spec fn yielded(&self) -> nat {
        self.collected@.len()
    }

    /// What the reading position and the names already yielded have to do
    /// with each other.
    pub closed spec fn wf(&self) -> bool {
        let hs = self.handles();
        let w = winners(hs);
        let k = self.collected@.len() as int;
        &&& self.active <= self.modules@.len()
        &&& (self.active > 0 ==> self.cursor <= self.modules@[self.active - 1].entries@.len())
        &&& (self.active == 0 ==> self.cursor == 0)
        &&& k <= w.len()
        &&& forall|i: int| 0 <= i < k ==> (#[trigger] self.collected@[i])@ == w[i].name()
        &&& fresh(pending(hs, self.active as nat, self.cursor as nat), seen_of(self.collected@))
            == w.skip(k)
    }

    /// How many entries of the copy that is being read are still unread.
    closed spec fn unread(&self) -> int {
        if self.active == 0 {
            0
        } else {
            self.modules@[self.active - 1].entries@.len() - self.cursor
        }
    }

    /// Everything that the projection yields from a fresh start, in order.
    pub open spec fn all(&self) -> Seq<EntryModel> {
        Seq::new(
            winners(self.handles()).len(),
            |i: int| entry_of(self.handles(), winners(self.handles())[i]),
        )
    }

    /// What the projection has yet to yield, in order.
    pub open spec fn remaining(&self) -> Seq<EntryModel> {
        self.all().skip(self.yielded() as int)
    }

    /// No more entries were yielded than the merge holds.
    pub proof fn lemma_yielded_in_range(&self)
        requires
            self.wf(),
        ensures
            self.yielded() <= winners(self.handles()).len(),
            self.remaining().len() == winners(self.handles()).len() - self.yielded(),
    {
    }

    /// A projection of the given copies that has yielded nothing yet.
    pub fn new(name: String, modules: Vec<DirHandle<'a>>) -> (r: Self)
        ensures
            r.wf(),
            r.name_view() == name@,
            r.handles() == handles_view(modules@),
            r.yielded() == 0,
    {
        let active = modules.len();
        let r = ModuleIterator { name, modules, active, cursor: 0, collected: Vec::new() };
        proof {
            let hs = r.handles();
            lemma_pending_start(hs, active as nat);
            assert(seen_of(r.collected@) =~= Set::<Seq<char>>::empty());
            assert(winners(hs).skip(0) =~= winners(hs));
        }
        r
    }

    /// The name of the directory level.
    pub fn name(&self) -> (r: &str)
        ensures
            r@ == self.name_view(),
    {
        self.name.as_str()
    }
}

/// With nothing read of the last copy, what is pending is the whole reading
/// order.
proof fn lemma_pending_start(hs: Seq<Handle>, active: nat)
    requires
        active <= hs.len(),
    ensures
        pending(hs, active, 0) == scan(hs, active),
{
    if active > 0 {
        assert(candidates(hs[active - 1]).skip(0) =~= candidates(hs[active - 1]));
    }
}

/// How `fresh` unfolds when one more entry of the last copy is read.
proof fn lemma_pending_step(hs: Seq<Handle>, active: nat, cursor: nat, seen: Set<Seq<char>>)
    requires
        0 < active <= hs.len(),
        cursor < hs[active - 1].entries.len(),
    ensures
        ({
            let c = Candidate { dir: hs[active - 1].path, entry: hs[active - 1].entries[cursor as int] };
            fresh(pending(hs, active, cursor), seen) == if seen.contains(c.name()) {
                fresh(pending(hs, active, cursor + 1), seen)
            } else {
                seq![c] + fresh(pending(hs, active, cursor + 1), seen.insert(c.name()))
            }
        }),
{
    let p = pending(hs, active, cursor);
    assert(p.drop_first() =~= pending(hs, active, cursor + 1));
    assert(p[0] == candidates(hs[active - 1])[cursor as int]);
}

/// When the last copy is read to its end, reading goes on with the copy below.
proof fn lemma_pending_pop(hs: Seq<Handle>, active: nat)
    requires
        0 < active <= hs.len(),
    ensures
        pending(hs, active, hs[active - 1].entries.len()) == pending(hs, (active - 1) as nat, 0),
{
    lemma_pending_start(hs, (active - 1) as nat);
    let c = candidates(hs[active - 1]);
    assert(c.skip(c.len() as int) + scan(hs, (active - 1) as nat) =~= scan(hs, (active - 1) as nat));
}

impl<'a> ModuleEntry<'a> {
    /// The entry as the merge defines it.
    pub closed spec fn view(&self) -> EntryModel {
        EntryModel {
            name: self.name@,
            path: self.path@,
            attr: self.attr,
            nested: match self.iter {
                Some(it) => Some(it.handles()),
                None => None,
            },
        }
    }

    /// The projection of a directory entry is well formed and has yielded
    /// nothing.
    pub closed spec fn wf(&self) -> bool {
        match self.iter {
            Some(it) => it.wf() && it.yielded() == 0 && it.name_view() == self.name@,
            None => true,
        }
    }

    /// The name of the entry.
    pub fn name(&self) -> (r: &str)
        ensures
            r@ == self@.name,
    {
        self.name.as_str()
    }

    /// The path of the winning module's copy.
    pub fn path(&self) -> (r: &str)
        ensures
            r@ == self@.path,
    {
        self.path.as_str()
    }

    /// The attributes of the winning module's copy; an error where they could
    /// not be read.
    pub fn get_attr(&self) -> (r: Result<FileAttr, DeployError>)
        ensures
            match r {
                Ok(a) => self@.attr == Some(a),
                Err(e) => self@.attr is None && e@ == (DeployErrorView::AttrProbe {
                    path: self@.path,
                }),
            },
    {
        match self.attr {
            Some(a) => Ok(a),
            None => Err(DeployError::AttrProbe { path: self.path.clone() }),
        }
    }

    /// Whether the entry is a directory.
    pub fn is_dir(&self) -> (r: bool)
        ensures
            r == self@.nested is Some,
    {
        self.iter.is_some()
    }

    /// The projection of the directory one level down, which merges every
    /// module's copy of it; nothing for a file.
    pub fn iter(self) -> (r: Option<ModuleIterator<'a>>)
        requires
            self.wf(),
        ensures
            match r {
                Some(it) => it.wf() && it.yielded() == 0 && self@.nested == Some(it.handles())
                    && it.name_view() == self@.name,
                None => self@.nested is None,
            },
    {
        self.iter
    }
}

impl<'a> ModuleIterator<'a> {
    /// Yields the next name of the level that was not yielded before, from
    /// the copy of highest precedence that lists it.
    pub fn next(&mut self) -> (r: Option<ModuleEntry<'a>>)
        requires
            old(self).wf(),
        ensures
            final(self).wf(),
            final(self).handles() == old(self).handles(),
            final(self).name_view() == old(self).name_view(),
            match r {
                Some(e) => {
                    &&& old(self).remaining().len() > 0
                    &&& e.wf()
                    &&& e@ == old(self).remaining()[0]
                    &&& final(self).yielded() == old(self).yielded() + 1
                },
                None => old(self).remaining().len() == 0 && final(self).yielded() == old(
                    self,
                ).yielded(),
            },
    {
        let ghost hs = self.handles();
        let ghost w = winners(hs);
        let ghost k = self.collected@.len() as int;
        loop
            invariant
                self.wf(),
                self.handles() == hs,
                hs == old(self).handles(),
                w == winners(hs),
                self.name@ == old(self).name@,
                self.collected@ == old(self).collected@,
                k == self.collected@.len(),
            decreases self.active, self.unread(),
        {
            if self.active == 0 {
                assert(w.skip(k).len() == 0);
                return None;
            }
            let idx = self.active - 1;
            let entries: &'a Vec<DirEntry> = self.modules[idx].entries;
            assert(hs[idx as int] == self.modules@[idx as int]@);
            proof {
                lemma_listing_view(entries@);
            }
            if self.cursor >= entries.len() {
                proof {
                    lemma_pending_pop(hs, self.active as nat);
                }
                self.active = idx;
                self.cursor = 0;
            } else {
                let e: &'a DirEntry = &entries[self.cursor];
                proof {
                    lemma_pending_step(
                        hs,
                        self.active as nat,
                        self.cursor as nat,
                        seen_of(self.collected@),
                    );
                }
                let seen = contains_name(&self.collected, e.name.as_str());
                let ghost c = Candidate { dir: hs[idx as int].path, entry: e@ };
                let ghost f = fresh(
                    pending(hs, self.active as nat, (self.cursor + 1) as nat),
                    seen_of(self.collected@).insert(c.name()),
                );
                assert(!seen ==> w.skip(k) == seq![c] + f);
                self.cursor = self.cursor + 1;
                if !seen {
                    proof {
                        assert((seq![c] + f)[0] == c);
                        assert(w.skip(k).len() >= 1);
                        assert(w.skip(k)[0] == w[k]);
                        assert(f =~= (seq![c] + f).drop_first());
                        assert(w.skip(k).drop_first() =~= w.skip(k + 1));
                    }
                    let path = join(self.modules[idx].path.as_str(), e.name.as_str());
                    let iter = if e.is_dir {
                        let sub = open_all(&self.modules, e.name.as_str());
                        Some(ModuleIterator::new(e.name.clone(), sub))
                    } else {
                        None
                    };
                    let ghost before = self.collected@;
                    self.collected.push(e.name.clone());
                    proof {
                        assert(seen_of(self.collected@) =~= seen_of(before).insert(c.name())) by {
                            assert(self.collected@[k]@ == c.name());
                            assert forall|n: Seq<char>|
                                seen_of(before).insert(c.name()).contains(n) implies seen_of(
                                self.collected@,
                            ).contains(n) by {
                                if n != c.name() {
                                    let i = choose|i: int|
                                        0 <= i < before.len() && (#[trigger] before[i])@ == n;
                                    assert(self.collected@[i]@ == n);
                                }
                            }
                        }
                        assert forall|i: int| 0 <= i < k + 1 implies (
                        #[trigger] self.collected@[i])@ == w[i].name() by {
                            if i < k {
                                assert(self.collected@[i] == before[i]);
                            }
                        }
                    }
                    let entry = ModuleEntry { name: e.name.clone(), path, attr: e.attr, iter };
                    return Some(entry);
                }
            }
        }
    }
}

/// An installed module: its name and what its own directory lists.
#[derive(Debug)]
pub struct ModuleInfo {
    pub name: String,
    pub entries: Vec<DirEntry>,
}

/// A `ModuleInfo` as a mathematical value.
pub struct ModuleInfoView {
    pub name: Seq<char>,
    pub entries: Seq<EntryView>,
}

impl View for ModuleInfo {
    type V = ModuleInfoView;

    open spec fn view(&self) -> ModuleInfoView {
        ModuleInfoView { name: self.name@, entries: listing_view(self.entries@) }
    }
}

/// The values of a run of modules.
pub open spec fn infos_view(infos: Seq<ModuleInfo>) -> Seq<ModuleInfoView> {
    Seq::new(infos.len(), |i: int| infos[i]@)
}

/// The modules' own directories under `root`, in the order of the modules.
pub open spec fn module_handles(root: Seq<char>, infos: Seq<ModuleInfoView>) -> Seq<Handle> {
    Seq::new(
        infos.len(),
        |i: int| Handle { path: join_path(root, infos[i].name), entries: infos[i].entries },
    )
}

impl<'a> ModuleIterator<'a> {
    /// The projection of the directory `name` over the modules that have it:
    /// each module's directory lies under `modules_root` by the module's
    /// name. A module without the directory is left out.
    pub fn from_modules(modules_root: &str, module_infos: &'a Vec<ModuleInfo>, name: &str) -> (r:
        Self)
        ensures
            r.wf(),
            r.yielded() == 0,
            r.name_view() == name@,
            r.handles() == open_dirs(
                module_handles(modules_root@, infos_view(module_infos@)),
                name@,
            ),
    {
        let n = module_infos.len();
        let mut roots: Vec<DirHandle<'a>> = Vec::new();
        let mut i: usize = 0;
        while i < n
            invariant
                n == module_infos@.len(),
                i <= n,
                roots@.len() == i,
                forall|j: int|
                    0 <= j < i ==> (#[trigger] roots@[j])@ == module_handles(
                        modules_root@,
                        infos_view(module_infos@),
                    )[j],
            decreases n - i,
        {
            let path = join(modules_root, module_infos[i].name.as_str());
            roots.push(DirHandle { path, entries: &module_infos[i].entries });
            i = i + 1;
        }
        assert(handles_view(roots@) =~= module_handles(modules_root@, infos_view(module_infos@)));
        let modules = open_all(&roots, name);
        ModuleIterator::new(name.to_owned(), modules)
    }
}

} // verus!
