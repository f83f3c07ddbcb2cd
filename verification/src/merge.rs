use vstd::prelude::*;
use crate::attr::FileAttr;
use crate::names::join_path;
use crate::snapshot::entry_height;
use crate::snapshot::EntryView;
use crate::snapshot::find_entry;
use crate::snapshot::find_index;
use crate::snapshot::lemma_find_index;
use crate::snapshot::lemma_listing_height;
use crate::snapshot::listing_height;

verus! {

/// One module's copy of a directory: where it lies and what it lists.
pub struct Handle {
    pub path: Seq<char>,
    pub entries: Seq<EntryView>,
}

/// An entry of one module's copy of a directory, with the path of that copy.
pub struct Candidate {
    pub dir: Seq<char>,
    pub entry: EntryView,
}

impl Candidate {
    /// The name of the entry.
    pub open spec fn name(self) -> Seq<char> {
        self.entry.name
    }
}

/// What the merge hands out for one name: the name, the path of the winning
/// module's copy, the attributes read there, and, for a directory, every
/// module's copy of it in precedence order.
pub struct EntryModel {
    pub name: Seq<char>,
    pub path: Seq<char>,
    pub attr: Option<FileAttr>,
    pub nested: Option<Seq<Handle>>,
}

/// The entries of one copy in reading order.
pub open spec fn candidates(h: Handle) -> Seq<Candidate> {
    Seq::new(h.entries.len(), |j: int| Candidate { dir: h.path, entry: h.entries[j] })
}

/// The entries of the first `active` copies in the order in which the merge
/// reads them: the last copy first, each copy in reading order. A later copy
/// takes precedence over an earlier one.
pub open spec fn scan(hs: Seq<Handle>, active: nat) -> Seq<Candidate>
    decreases active,
{
    if active == 0 || active > hs.len() {
        Seq::empty()
    } else {
        candidates(hs[active - 1]) + scan(hs, (active - 1) as nat)
    }
}

/// Of a run of entries, those whose name is not in `seen` and did not occur
/// earlier in the run.
pub open spec fn fresh(c: Seq<Candidate>, seen: Set<Seq<char>>) -> Seq<Candidate>
    decreases c.len(),
{
    if c.len() == 0 {
        Seq::empty()
    } else if seen.contains(c[0].name()) {
        fresh(c.drop_first(), seen)
    } else {
        seq![c[0]] + fresh(c.drop_first(), seen.insert(c[0].name()))
    }
}

/// What the merge of the copies `hs` yields, in order: each name once, from
/// the copy of highest precedence that lists it.
pub open spec fn winners(hs: Seq<Handle>) -> Seq<Candidate> {
    fresh(scan(hs, hs.len()), Set::empty())
}

/// One module's copy of the subdirectory `name`, where its listing has that
/// name first on a directory.
pub open spec fn open_dir(h: Handle, name: Seq<char>) -> Option<Handle> {
    match find_entry(h.entries, name) {
        Some(e) => if e.is_dir {
            Some(Handle { path: join_path(h.path, name), entries: e.entries })
        } else {
            None
        },
        None => None,
    }
}

/// Every module's copy of the subdirectory `name`, in precedence order.
pub open spec fn open_dirs(hs: Seq<Handle>, name: Seq<char>) -> Seq<Handle>
    decreases hs.len(),
{
    if hs.len() == 0 {
        Seq::empty()
    } else {
        let rest = open_dirs(hs.drop_last(), name);
        match open_dir(hs.last(), name) {
            Some(h) => rest.push(h),
            None => rest,
        }
    }
}

/// The entry handed out for a winning candidate.
pub open spec fn entry_of(hs: Seq<Handle>, c: Candidate) -> EntryModel {
    EntryModel {
        name: c.name(),
        path: join_path(c.dir, c.name()),
        attr: c.entry.attr,
        nested: if c.entry.is_dir {
            Some(open_dirs(hs, c.name()))
        } else {
            None
        },
    }
}

/// How many directory levels the copies hold, the copies' own level included.
pub open spec fn handles_height(hs: Seq<Handle>) -> nat
    decreases hs.len(),
{
    if hs.len() == 0 {
        0
    } else {
        let h = 1 + listing_height(hs.last().entries);
        let r = handles_height(hs.drop_last());
        if h >= r { h } else { r }
    }
}

/// The copy of highest precedence that lists `name`, by its position.
pub open spec fn provider(hs: Seq<Handle>, name: Seq<char>) -> Option<int>
    decreases hs.len(),
{
    if hs.len() == 0 {
        None
    } else if find_index(hs.last().entries, name) is Some {
        Some(hs.len() - 1)
    } else {
        provider(hs.drop_last(), name)
    }
}

/// The entry that stands for `name` in the merge: the first of that name in
/// the copy of highest precedence that lists it.
pub open spec fn winner_of(hs: Seq<Handle>, name: Seq<char>) -> Option<Candidate> {
    match provider(hs, name) {
        Some(i) => Some(
            Candidate { dir: hs[i].path, entry: find_entry(hs[i].entries, name).unwrap() },
        ),
        None => None,
    }
}

/// The first of a run of entries that bears `name`, by its position.
pub open spec fn first_pos(c: Seq<Candidate>, name: Seq<char>) -> Option<int>
    decreases c.len(),
{
    if c.len() == 0 {
        None
    } else if c[0].name() == name {
        Some(0int)
    } else {
        match first_pos(c.drop_first(), name) {
            Some(i) => Some(i + 1),
            None => None,
        }
    }
}

/// The first of a run of entries that bears `name`.
pub open spec fn first_named(c: Seq<Candidate>, name: Seq<char>) -> Option<Candidate> {
    match first_pos(c, name) {
        Some(i) => Some(c[i]),
        None => None,
    }
}

/// `first_pos` gives the least position that bears the name, and nothing
/// exactly when no position does.
proof fn lemma_first_pos(c: Seq<Candidate>, name: Seq<char>)
    ensures
        match first_pos(c, name) {
            Some(i) => 0 <= i < c.len() && c[i].name() == name && forall|j: int|
                0 <= j < i ==> c[j].name() != name,
            None => forall|j: int| 0 <= j < c.len() ==> c[j].name() != name,
        },
    decreases c.len(),
{
    if c.len() > 0 && c[0].name() != name {
        let t = c.drop_first();
        lemma_first_pos(t, name);
        match first_pos(t, name) {
            Some(i) => {
                assert forall|j: int| 0 <= j < i + 1 implies c[j].name() != name by {
                    if j > 0 {
                        assert(t[j - 1].name() != name);
                    }
                }
            },
            None => {
                assert forall|j: int| 0 <= j < c.len() implies c[j].name() != name by {
                    if j > 0 {
                        assert(t[j - 1].name() != name);
                    }
                }
            },
        }
    }
}

/// How `first_named` unfolds on a run that is not empty.
proof fn lemma_first_named_step(c: Seq<Candidate>, name: Seq<char>)
    requires
        c.len() > 0,
    ensures
        first_named(c, name) == if c[0].name() == name {
            Some(c[0])
        } else {
            first_named(c.drop_first(), name)
        },
{
    lemma_first_pos(c.drop_first(), name);
}

/// In two runs read one after the other, the first entry of a name is the
/// first run's where it has one, else the second run's.
proof fn lemma_first_named_concat(a: Seq<Candidate>, b: Seq<Candidate>, name: Seq<char>)
    ensures
        first_named(a + b, name) == if first_named(a, name) is Some {
            first_named(a, name)
        } else {
            first_named(b, name)
        },
    decreases a.len(),
{
    if a.len() == 0 {
        assert(a + b =~= b);
    } else {
        assert((a + b).drop_first() =~= a.drop_first() + b);
        lemma_first_named_concat(a.drop_first(), b, name);
        lemma_first_named_step(a, name);
        lemma_first_named_step(a + b, name);
    }
}

/// The first entry of a name in one copy is the first of that name in its
/// listing.
proof fn lemma_first_named_candidates(h: Handle, name: Seq<char>)
    ensures
        first_named(candidates(h), name) == match find_entry(h.entries, name) {
            Some(e) => Some(Candidate { dir: h.path, entry: e }),
            None => None,
        },
{
    lemma_first_pos(candidates(h), name);
    lemma_find_index(h.entries, name);
    match first_pos(candidates(h), name) {
        Some(i) => {
            assert(candidates(h)[i].name() == h.entries[i].name);
            match find_index(h.entries, name) {
                Some(k) => {
                    assert(candidates(h)[k].name() == name);
                    assert(i == k);
                },
                None => {},
            }
        },
        None => {
            match find_index(h.entries, name) {
                Some(k) => {
                    assert(candidates(h)[k].name() == name);
                },
                None => {},
            }
        },
    }
}

/// The reading order of the first `active` copies does not depend on the
/// copies behind them.
proof fn lemma_scan_prefix(hs: Seq<Handle>, active: nat)
    requires
        active < hs.len(),
    ensures
        scan(hs, active) == scan(hs.drop_last(), active),
    decreases active,
{
    if active > 0 {
        lemma_scan_prefix(hs, (active - 1) as nat);
    }
}

/// In reading order the first entry of a name is the one that stands for the
/// name in the merge.
proof fn lemma_first_named_scan(hs: Seq<Handle>, name: Seq<char>)
    ensures
        first_named(scan(hs, hs.len()), name) == winner_of(hs, name),
    decreases hs.len(),
{
    if hs.len() > 0 {
        let n = hs.len();
        let top = hs.last();
        let rest = hs.drop_last();
        lemma_scan_prefix(hs, (n - 1) as nat);
        lemma_first_named_scan(rest, name);
        lemma_first_named_concat(candidates(top), scan(rest, rest.len()), name);
        lemma_first_named_candidates(top, name);
        lemma_provider(rest, name);
    }
}

/// `provider` gives the greatest position whose copy lists the name, and
/// nothing exactly when no copy does.
pub proof fn lemma_provider(hs: Seq<Handle>, name: Seq<char>)
    ensures
        match provider(hs, name) {
            Some(i) => 0 <= i < hs.len() && find_index(hs[i].entries, name) is Some
                && forall|j: int|
                i < j < hs.len() ==> find_index(#[trigger] hs[j].entries, name) is None,
            None => forall|j: int|
                0 <= j < hs.len() ==> find_index(#[trigger] hs[j].entries, name) is None,
        },
    decreases hs.len(),
{
    if hs.len() > 0 && find_index(hs.last().entries, name) is None {
        let rest = hs.drop_last();
        lemma_provider(rest, name);
        match provider(rest, name) {
            Some(i) => {
                assert forall|j: int| i < j < hs.len() implies find_index(
                    #[trigger] hs[j].entries,
                    name,
                ) is None by {
                    if j < hs.len() - 1 {
                        assert(rest[j] == hs[j]);
                    }
                }
            },
            None => {
                assert forall|j: int| 0 <= j < hs.len() implies find_index(
                    #[trigger] hs[j].entries,
                    name,
                ) is None by {
                    if j < hs.len() - 1 {
                        assert(rest[j] == hs[j]);
                    }
                }
            },
        }
    }
}

/// What `fresh` keeps: each kept entry is the first of its name in the run
/// and its name was not seen before; no name is kept twice; and every name
/// of the run that was not seen before is kept.
proof fn lemma_fresh(c: Seq<Candidate>, seen: Set<Seq<char>>)
    ensures
        fresh(c, seen).len() <= c.len(),
        forall|k: int|
            0 <= k < fresh(c, seen).len() ==> !seen.contains(
                (#[trigger] fresh(c, seen)[k]).name(),
            ) && first_named(c, fresh(c, seen)[k].name()) == Some(fresh(c, seen)[k]),
        forall|i: int, j: int|
            0 <= i < j < fresh(c, seen).len() ==> (#[trigger] fresh(c, seen)[i]).name() != (
            #[trigger] fresh(c, seen)[j]).name(),
        forall|name: Seq<char>|
            !seen.contains(name) && first_named(c, name) is Some ==> exists|k: int|
                0 <= k < fresh(c, seen).len() && (#[trigger] fresh(c, seen)[k]).name() == name,
    decreases c.len(),
{
    if c.len() > 0 {
        let rest = c.drop_first();
        let n0 = c[0].name();
        let f = fresh(c, seen);
        assert forall|name: Seq<char>| true implies first_named(c, name) == if n0 == name {
            Some(c[0])
        } else {
            #[trigger] first_named(rest, name)
        } by {
            lemma_first_named_step(c, name);
        }
        if seen.contains(n0) {
            lemma_fresh(rest, seen);
            assert forall|k: int| 0 <= k < f.len() implies !seen.contains(
                (#[trigger] f[k]).name(),
            ) && first_named(c, f[k].name()) == Some(f[k]) by {
                assert(first_named(rest, f[k].name()) == Some(f[k]));
            }
            assert forall|name: Seq<char>|
                !seen.contains(name) && first_named(c, name) is Some implies exists|k: int|
                0 <= k < f.len() && (#[trigger] f[k]).name() == name by {
                assert(first_named(rest, name) is Some);
            }
        } else {
            let seen2 = seen.insert(n0);
            let g = fresh(rest, seen2);
            lemma_fresh(rest, seen2);
            assert(f =~= seq![c[0]] + g);
            assert forall|k: int| 0 <= k < f.len() implies !seen.contains(
                (#[trigger] f[k]).name(),
            ) && first_named(c, f[k].name()) == Some(f[k]) by {
                if k > 0 {
                    assert(f[k] == g[k - 1]);
                    assert(!seen2.contains(g[k - 1].name()));
                    assert(first_named(rest, g[k - 1].name()) == Some(g[k - 1]));
                } else {
                    assert(f[0] == c[0]);
                }
            }
            assert forall|i: int, j: int| 0 <= i < j < f.len() implies (#[trigger] f[i]).name()
                != (#[trigger] f[j]).name() by {
                assert(f[j] == g[j - 1]);
                assert(!seen2.contains(g[j - 1].name()));
                if i > 0 {
                    assert(f[i] == g[i - 1]);
                }
            }
            assert forall|name: Seq<char>|
                !seen.contains(name) && first_named(c, name) is Some implies exists|k: int|
                0 <= k < f.len() && (#[trigger] f[k]).name() == name by {
                if name == n0 {
                    assert(f[0].name() == name);
                } else {
                    assert(first_named(rest, name) is Some);
                    assert(!seen2.contains(name));
                    let k = choose|k: int| 0 <= k < g.len() && (#[trigger] g[k]).name() == name;
                    assert(f[k + 1] == g[k]);
                }
            }
        }
    }
}

/// Without a copy the merge yields nothing.
pub proof fn lemma_winners_need_copies(hs: Seq<Handle>)
    ensures
        hs.len() == 0 ==> winners(hs).len() == 0,
{
}

/// Each name is yielded once: no two entries of the merge bear one name.
pub proof fn lemma_winner_names_distinct(hs: Seq<Handle>)
    ensures
        forall|i: int, j: int|
            0 <= i < winners(hs).len() && 0 <= j < winners(hs).len() && i != j ==> (
            #[trigger] winners(hs)[i]).name() != (#[trigger] winners(hs)[j]).name(),
{
    lemma_fresh(scan(hs, hs.len()), Set::empty());
    let w = winners(hs);
    assert forall|i: int, j: int| 0 <= i < w.len() && 0 <= j < w.len() && i != j implies (
    #[trigger] w[i]).name() != (#[trigger] w[j]).name() by {
        if i < j {
        } else {
            assert(w[j].name() != w[i].name());
        }
    }
}

/// Precedence: the entry that the merge yields for a name is the first of
/// that name in the copy of highest precedence that lists it, whatever the
/// copies below it hold.
pub proof fn lemma_winner_precedence(hs: Seq<Handle>, k: int)
    requires
        0 <= k < winners(hs).len(),
    ensures
        winner_of(hs, winners(hs)[k].name()) == Some(winners(hs)[k]),
{
    lemma_fresh(scan(hs, hs.len()), Set::empty());
    lemma_first_named_scan(hs, winners(hs)[k].name());
}

/// Every name that some copy lists is yielded by the merge, and no other.
pub proof fn lemma_winner_exists(hs: Seq<Handle>, name: Seq<char>)
    ensures
        winner_of(hs, name) is Some <==> exists|k: int|
            0 <= k < winners(hs).len() && (#[trigger] winners(hs)[k]).name() == name,
        winner_of(hs, name) is Some ==> exists|k: int|
            0 <= k < winners(hs).len() && #[trigger] winners(hs)[k] == winner_of(hs, name).unwrap(),
{
    lemma_fresh(scan(hs, hs.len()), Set::empty());
    lemma_first_named_scan(hs, name);
    let w = winners(hs);
    if winner_of(hs, name) is Some {
        assert(!Set::<Seq<char>>::empty().contains(name));
        assert(first_named(scan(hs, hs.len()), name) is Some);
        let k = choose|k: int| 0 <= k < w.len() && (#[trigger] w[k]).name() == name;
        lemma_winner_precedence(hs, k);
    }
    if exists|k: int| 0 <= k < w.len() && (#[trigger] w[k]).name() == name {
        let k = choose|k: int| 0 <= k < w.len() && (#[trigger] w[k]).name() == name;
        lemma_winner_precedence(hs, k);
    }
}

/// The copies of a subdirectory hold fewer levels than the copies they were
/// opened in.
pub proof fn lemma_open_dirs_height(hs: Seq<Handle>, name: Seq<char>)
    requires
        hs.len() > 0,
    ensures
        handles_height(open_dirs(hs, name)) < handles_height(hs),
    decreases hs.len(),
{
    let rest = hs.drop_last();
    let sub = open_dirs(rest, name);
    if rest.len() > 0 {
        lemma_open_dirs_height(rest, name);
    } else {
        assert(handles_height(sub) == 0);
    }
    assert(handles_height(hs) >= 1 + listing_height(hs.last().entries));
    assert(handles_height(hs) >= handles_height(rest));
    assert(handles_height(sub) < handles_height(hs));
    match open_dir(hs.last(), name) {
        Some(h) => {
            lemma_find_index(hs.last().entries, name);
            let i = find_index(hs.last().entries, name).unwrap();
            lemma_listing_height(hs.last().entries, i);
            assert(sub.push(h).drop_last() =~= sub);
            assert(sub.push(h).last() == h);
            assert(entry_height(hs.last().entries[i]) == 1 + listing_height(h.entries));
            assert(handles_height(sub.push(h)) < handles_height(hs));
        },
        None => {},
    }
}

/// Where the copy that the handle at position `i` opens stands among the
/// opened copies: behind the copies that the handles before it open.
pub open spec fn opened_before(hs: Seq<Handle>, name: Seq<char>, i: int) -> int {
    open_dirs(hs.take(i), name).len() as int
}

/// Opening keeps the order of the handles: what the first `i` handles open
/// comes first among the opened copies.
pub proof fn lemma_open_dirs_prefix(hs: Seq<Handle>, name: Seq<char>, i: int)
    requires
        0 <= i <= hs.len(),
    ensures
        opened_before(hs, name, i) <= open_dirs(hs, name).len(),
        open_dirs(hs.take(i), name) == open_dirs(hs, name).take(opened_before(hs, name, i)),
    decreases hs.len(),
{
    if i == hs.len() {
        assert(hs.take(i) =~= hs);
        assert(open_dirs(hs, name).take(open_dirs(hs, name).len() as int) =~= open_dirs(
            hs,
            name,
        ));
    } else {
        let rest = hs.drop_last();
        assert(rest.take(i) =~= hs.take(i));
        lemma_open_dirs_prefix(rest, name, i);
        let k = opened_before(hs, name, i);
        if open_dir(hs.last(), name) is Some {
            assert(open_dirs(rest, name).push(open_dir(hs.last(), name)->Some_0).take(k)
                =~= open_dirs(rest, name).take(k));
        }
    }
}

/// The copy that a handle opens stands among the opened copies where
/// `opened_before` says.
pub proof fn lemma_open_dirs_position(hs: Seq<Handle>, name: Seq<char>, i: int)
    requires
        0 <= i < hs.len(),
        open_dir(hs[i], name) is Some,
    ensures
        0 <= opened_before(hs, name, i) < open_dirs(hs, name).len(),
        open_dirs(hs, name)[opened_before(hs, name, i)] == open_dir(hs[i], name)->Some_0,
        opened_before(hs, name, i + 1) == opened_before(hs, name, i) + 1,
{
    lemma_open_dirs_prefix(hs, name, i);
    lemma_open_dirs_prefix(hs, name, i + 1);
    let one_more = hs.take(i + 1);
    assert(one_more.drop_last() =~= hs.take(i));
    assert(one_more.last() == hs[i]);
    let k = opened_before(hs, name, i);
    assert(open_dirs(one_more, name)[k] == open_dir(hs[i], name)->Some_0);
}

/// A later handle's copy stands behind an earlier handle's copy.
pub proof fn lemma_opened_before_grows(hs: Seq<Handle>, name: Seq<char>, i: int, j: int)
    requires
        0 <= i <= j <= hs.len(),
    ensures
        opened_before(hs, name, i) <= opened_before(hs, name, j),
    decreases j - i,
{
    if i < j {
        lemma_opened_before_grows(hs, name, i, j - 1);
        let longer = hs.take(j);
        assert(longer.drop_last() =~= hs.take(j - 1));
    }
}

/// Each opened copy is the copy that some handle opens.
pub proof fn lemma_open_dirs_origin(hs: Seq<Handle>, name: Seq<char>, k: int) -> (i: int)
    requires
        0 <= k < open_dirs(hs, name).len(),
    ensures
        0 <= i < hs.len(),
        open_dir(hs[i], name) is Some,
        opened_before(hs, name, i) == k,
    decreases hs.len(),
{
    let rest = hs.drop_last();
    if k < open_dirs(rest, name).len() {
        let i = lemma_open_dirs_origin(rest, name, k);
        assert(rest.take(i) =~= hs.take(i));
        i
    } else {
        assert(hs.take(hs.len() - 1) =~= rest);
        hs.len() - 1
    }
}

} // verus!
