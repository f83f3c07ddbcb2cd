use vstd::prelude::*;
use crate::attr::FileAttr;
use crate::names::name_order;
use crate::names::Rank;
use crate::names::valid_name;

verus! {

/// One entry of a directory as it was read: its name, whether the listing
/// reported a directory, its attributes, and, for a directory, what it lists
/// in reading order. `attr` is `None` where the entry is there and its
/// attributes could not be read; a path that is not there has no entry. A
/// pass that has to probe an entry without attributes fails.
#[derive(Debug)]
pub struct DirEntry {
    pub name: String,
    pub is_dir: bool,
    pub attr: Option<FileAttr>,
    pub entries: Vec<DirEntry>,
}

/// A `DirEntry` as a mathematical value.
pub struct EntryView {
    pub name: Seq<char>,
    pub is_dir: bool,
    pub attr: Option<FileAttr>,
    pub entries: Seq<EntryView>,
}

/// The value of an entry.
pub open spec fn entry_view(e: DirEntry) -> EntryView
    decreases e,
{
    EntryView {
        name: e.name@,
        is_dir: e.is_dir,
        attr: e.attr,
        entries: listing_view(e.entries@),
    }
}

/// The values of the entries of a listing.
pub open spec fn listing_view(s: Seq<DirEntry>) -> Seq<EntryView>
    decreases s,
{
    if s.len() == 0 {
        Seq::empty()
    } else {
        listing_view(s.drop_last()).push(entry_view(s.last()))
    }
}

impl View for DirEntry {
    type V = EntryView;

    open spec fn view(&self) -> EntryView {
        entry_view(*self)
    }
}

/// The value of an entry that may be missing.
pub open spec fn opt_view(e: Option<&DirEntry>) -> Option<EntryView> {
    match e {
        Some(e) => Some(e@),
        None => None,
    }
}

/// The values of the entries of a listing, one by one.
pub proof fn lemma_listing_view(s: Seq<DirEntry>)
    ensures
        listing_view(s).len() == s.len(),
        forall|i: int| 0 <= i < s.len() ==> #[trigger] listing_view(s)[i] == s[i]@,
    decreases s.len(),
{
    if s.len() > 0 {
        lemma_listing_view(s.drop_last());
    }
}

/// No name occurs twice in the listing.
pub open spec fn distinct_names(s: Seq<EntryView>) -> bool {
    forall|i: int, j: int| 0 <= i < j < s.len() ==> (#[trigger] s[i]).name != (#[trigger] s[j]).name
}

/// An entry as a directory can hold it: its name is not empty and has no
/// `/`, and what it lists is a valid listing.
pub open spec fn valid_entry(e: EntryView) -> bool
    decreases e,
{
    valid_name(e.name) && valid_listing(e.entries)
}

/// A listing as a directory can give it, at every depth: each name is not
/// empty and has no `/`, and no name occurs twice in one directory.
pub open spec fn valid_listing(s: Seq<EntryView>) -> bool
    decreases s,
{
    distinct_names(s) && forall|i: int| 0 <= i < s.len() ==> valid_entry(#[trigger] s[i])
}

/// How many directory levels lie under an entry, the entry included.
pub open spec fn entry_height(e: EntryView) -> nat
    decreases e,
{
    1 + listing_height(e.entries)
}

/// The greatest height among the entries of a listing; 0 for an empty one.
pub open spec fn listing_height(s: Seq<EntryView>) -> nat
    decreases s,
{
    if s.len() == 0 {
        0
    } else {
        let h = entry_height(s.last());
        let r = listing_height(s.drop_last());
        if h >= r {
            h
        } else {
            r
        }
    }
}

/// Each entry of a listing is at most as high as the listing.
pub proof fn lemma_listing_height(s: Seq<EntryView>, i: int)
    requires
        0 <= i < s.len(),
    ensures
        entry_height(s[i]) <= listing_height(s),
    decreases s.len(),
{
    if i < s.len() - 1 {
        lemma_listing_height(s.drop_last(), i);
    }
}

/// The first entry of a listing that bears `name`, by its position.
pub open spec fn find_index(s: Seq<EntryView>, name: Seq<char>) -> Option<int>
    decreases s.len(),
{
    if s.len() == 0 {
        None
    } else if s[0].name == name {
        Some(0int)
    } else {
        match find_index(s.drop_first(), name) {
            Some(i) => Some(i + 1),
            None => None,
        }
    }
}

/// The first entry of a listing that bears `name`.
pub open spec fn find_entry(s: Seq<EntryView>, name: Seq<char>) -> Option<EntryView> {
    match find_index(s, name) {
        Some(i) => Some(s[i]),
        None => None,
    }
}

/// `find_index` gives the least position that bears the name, and nothing
/// exactly when no position does.
pub proof fn lemma_find_index(s: Seq<EntryView>, name: Seq<char>)
    ensures
        match find_index(s, name) {
            Some(i) => 0 <= i < s.len() && s[i].name == name && forall|j: int|
                0 <= j < i ==> (#[trigger] s[j]).name != name,
            None => forall|j: int| 0 <= j < s.len() ==> (#[trigger] s[j]).name != name,
        },
    decreases s.len(),
{
    if s.len() > 0 && s[0].name != name {
        let t = s.drop_first();
        lemma_find_index(t, name);
        match find_index(t, name) {
            Some(i) => {
                assert forall|j: int| 0 <= j < i + 1 implies (#[trigger] s[j]).name != name by {
                    if j > 0 {
                        assert(t[j - 1].name != name);
                    }
                }
            },
            None => {
                assert forall|j: int| 0 <= j < s.len() implies (#[trigger] s[j]).name != name by {
                    if j > 0 {
                        assert(t[j - 1].name != name);
                    }
                }
            },
        }
    }
}

/// The attributes of the entry, where there is one and it has them. (Whether
/// an entry without attributes ends the pass is for the probe to say.)
pub open spec fn attr_of(target: Option<EntryView>) -> Option<FileAttr> {
    match target {
        Some(r) => r.attr,
        None => None,
    }
}

/// What a target directory lists, where the target entry is a directory.
pub open spec fn listing_of(target: Option<EntryView>) -> Option<Seq<EntryView>> {
    match target {
        Some(r) => if r.is_dir {
            Some(r.entries)
        } else {
            None
        },
        None => None,
    }
}

/// The target entry one level down: the first entry called `name` in what the
/// target directory lists. There is none under a missing entry or under one that
/// is no directory.
pub open spec fn child_of(target: Option<EntryView>, name: Seq<char>) -> Option<EntryView> {
    match listing_of(target) {
        Some(s) => find_entry(s, name),
        None => None,
    }
}

/// Finds the first entry of a listing that bears `name`.
pub fn find<'a>(entries: &'a Vec<DirEntry>, name: &str) -> (r: Option<&'a DirEntry>)
    ensures
        opt_view(r) == find_entry(listing_view(entries@), name@),
        match r {
            Some(e) => find_index(listing_view(entries@), name@) matches Some(i) && *e
                == entries@[i],
            None => true,
        },
{
    proof {
        lemma_listing_view(entries@);
    }
    let n = entries.len();
    let mut i: usize = 0;
    while i < n
        invariant
            n == entries@.len(),
            i <= n,
            listing_view(entries@).len() == n,
            forall|j: int| 0 <= j < n ==> #[trigger] listing_view(entries@)[j] == entries@[j]@,
            forall|j: int| 0 <= j < i ==> (#[trigger] listing_view(entries@)[j]).name != name@,
        decreases n - i,
    {
        if name_order(entries[i].name.as_str(), name) == Rank::Same {
            proof {
                assert(listing_view(entries@)[i as int].name == name@);
                lemma_find_index(listing_view(entries@), name@);
            }
            return Some(&entries[i]);
        }
        i = i + 1;
    }
    proof {
        lemma_find_index(listing_view(entries@), name@);
    }
    None
}

/// Looks up the target entry one level below `target`.
pub fn lookup<'a>(target: Option<&'a DirEntry>, name: &str) -> (r: Option<&'a DirEntry>)
    ensures
        opt_view(r) == child_of(opt_view(target), name@),
{
    match target {
        Some(d) => {
            if d.is_dir {
                find(&d.entries, name)
            } else {
                None
            }
        },
        None => None,
    }
}

} // verus!
