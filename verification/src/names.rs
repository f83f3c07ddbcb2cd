use vstd::prelude::*;
use vstd::string::StringExecFns;
use vstd::string::StrSliceExecFns;
use vstd::utf8::encode_utf8;
use vstd::utf8::encode_utf8_decode_utf8;

verus! {

/// The name of the sentinel that marks its directory for replacement.
pub open spec fn replace_marker() -> Seq<char> {
    seq!['.', 'r', 'e', 'p', 'l', 'a', 'c', 'e']
}

/// `base` and `name` joined into one path: a `/` stands between them unless
/// `base` is empty or already ends in one.
pub open spec fn join_path(base: Seq<char>, name: Seq<char>) -> Seq<char> {
    if base.len() > 0 && base.last() != '/' {
        base + seq!['/'] + name
    } else {
        base + name
    }
}

/// The last component of a path: what follows its last `/`.
pub open spec fn last_component(path: Seq<char>) -> Seq<char>
    decreases path.len(),
{
    if path.len() == 0 || path.last() == '/' {
        Seq::empty()
    } else {
        last_component(path.drop_last()).push(path.last())
    }
}

/// A name without `/` that is joined to a directory path is the last
/// component of the path that results.
pub proof fn lemma_join_last_component(base: Seq<char>, name: Seq<char>)
    requires
        forall|i: int| 0 <= i < name.len() ==> name[i] != '/',
    ensures
        last_component(join_path(base, name)) == name,
    decreases name.len(),
{
    let path = join_path(base, name);
    if name.len() == 0 {
        assert(name =~= Seq::<char>::empty());
    } else {
        let shorter = name.drop_last();
        lemma_join_last_component(base, shorter);
        assert(path.drop_last() =~= join_path(base, shorter));
        assert(path.last() == name.last());
        assert(name =~= shorter.push(name.last()));
    }
}

/// A name that a directory can list: not empty and without `/`.
pub open spec fn valid_name(name: Seq<char>) -> bool {
    name.len() > 0 && forall|i: int| 0 <= i < name.len() ==> name[i] != '/'
}

/// A path that names a place: not empty and not ending in `/`.
pub open spec fn clean_path(path: Seq<char>) -> bool {
    path.len() > 0 && path.last() != '/'
}

/// `path` lies below the directory `dir`: it is `dir`, a `/`, and more.
pub open spec fn below(path: Seq<char>, dir: Seq<char>) -> bool {
    path.len() > dir.len() + 1 && path.subrange(0, dir.len() as int) == dir && path[dir.len() as int]
        == '/'
}

/// `path` is the directory `dir` or lies below it.
pub open spec fn at_or_below(path: Seq<char>, dir: Seq<char>) -> bool {
    path == dir || below(path, dir)
}

/// Joining a valid name to a clean path gives a clean path that lies below
/// it.
pub proof fn lemma_join_below(dir: Seq<char>, name: Seq<char>)
    requires
        clean_path(dir),
        valid_name(name),
    ensures
        clean_path(join_path(dir, name)),
        below(join_path(dir, name), dir),
        join_path(dir, name) == dir + seq!['/'] + name,
{
    let p = join_path(dir, name);
    assert(p.subrange(0, dir.len() as int) =~= dir);
    assert(p.last() == name.last());
}

/// What lies below a place that is at or below a directory lies below that
/// directory.
pub proof fn lemma_below_transitive(path: Seq<char>, mid: Seq<char>, dir: Seq<char>)
    requires
        at_or_below(path, mid),
        at_or_below(mid, dir),
    ensures
        at_or_below(path, dir),
        below(path, mid) || below(mid, dir) ==> below(path, dir),
{
    if below(path, mid) && below(mid, dir) {
        assert(path.subrange(0, dir.len() as int) =~= mid.subrange(0, dir.len() as int)) by {
            assert forall|i: int| 0 <= i < dir.len() implies path[i] == mid[i] by {
                assert(path.subrange(0, mid.len() as int)[i] == mid[i]);
            }
        }
        assert(path.subrange(0, mid.len() as int)[dir.len() as int] == mid[dir.len() as int]);
    }
}

/// Places under two different names of one directory are different places:
/// nothing is at or below both.
pub proof fn lemma_names_apart(
    dir: Seq<char>,
    a: Seq<char>,
    b: Seq<char>,
    x: Seq<char>,
    y: Seq<char>,
)
    requires
        clean_path(dir),
        valid_name(a),
        valid_name(b),
        a != b,
        at_or_below(x, join_path(dir, a)),
        at_or_below(y, join_path(dir, b)),
    ensures
        x != y,
        x != dir,
{
    lemma_join_below(dir, a);
    lemma_join_below(dir, b);
    let pa = join_path(dir, a);
    let pb = join_path(dir, b);
    let base = (dir.len() + 1) as int;
    if x == y {
        assert forall|i: int| 0 <= i < pa.len() implies x[i] == pa[i] by {
            if x != pa {
                assert(x.subrange(0, pa.len() as int)[i] == pa[i]);
            }
        }
        assert forall|i: int| 0 <= i < pb.len() implies x[i] == pb[i] by {
            if y != pb {
                assert(y.subrange(0, pb.len() as int)[i] == pb[i]);
            }
        }
        if a.len() == b.len() {
            assert forall|i: int| 0 <= i < a.len() implies a[i] == b[i] by {
                assert(pa[base + i] == a[i]);
                assert(pb[base + i] == b[i]);
            }
            assert(a =~= b);
        } else if a.len() < b.len() {
            assert(pb[base + a.len()] == b[a.len() as int]);
            assert(x[pa.len() as int] == '/');
        } else {
            assert(pa[base + b.len()] == a[b.len() as int]);
            assert(y[pb.len() as int] == '/');
        }
    }
}

/// Lexicographic order on byte strings: `a` sorts strictly before `b`.
pub open spec fn bytes_lt(a: Seq<u8>, b: Seq<u8>) -> bool
    decreases a.len(),
{
    if b.len() == 0 {
        false
    } else if a.len() == 0 {
        true
    } else if a[0] != b[0] {
        a[0] < b[0]
    } else {
        bytes_lt(a.drop_first(), b.drop_first())
    }
}

/// The order in which names are kept: by their UTF-8 bytes.
pub open spec fn name_lt(a: Seq<char>, b: Seq<char>) -> bool {
    bytes_lt(encode_utf8(a), encode_utf8(b))
}

/// Where one name stands relative to another.
#[derive(Clone, Copy, Debug, PartialEq, Eq, Structural)]
pub enum Rank {
    Before,
    Same,
    After,
}

/// No byte string sorts before itself.
pub proof fn lemma_bytes_lt_irreflexive(a: Seq<u8>)
    ensures
        !bytes_lt(a, a),
    decreases a.len(),
{
    if a.len() > 0 {
        lemma_bytes_lt_irreflexive(a.drop_first());
    }
}

/// The order of byte strings is transitive.
pub proof fn lemma_bytes_lt_transitive(a: Seq<u8>, b: Seq<u8>, c: Seq<u8>)
    requires
        bytes_lt(a, b),
        bytes_lt(b, c),
    ensures
        bytes_lt(a, c),
    decreases a.len(),
{
    if a.len() > 0 && a[0] == b[0] && b[0] == c[0] {
        lemma_bytes_lt_transitive(a.drop_first(), b.drop_first(), c.drop_first());
    }
}

/// Of two different byte strings one sorts before the other.
pub proof fn lemma_bytes_lt_total(a: Seq<u8>, b: Seq<u8>)
    ensures
        bytes_lt(a, b) || a == b || bytes_lt(b, a),
    decreases a.len(),
{
    if a.len() == 0 || b.len() == 0 {
        assert(a.len() == 0 && b.len() == 0 ==> a =~= b);
    } else if a[0] == b[0] {
        lemma_bytes_lt_total(a.drop_first(), b.drop_first());
        if a.drop_first() == b.drop_first() {
            assert(a =~= seq![a[0]] + a.drop_first());
            assert(b =~= seq![b[0]] + b.drop_first());
        }
    }
}

/// Skipping a common prefix does not change the order of two byte strings.
proof fn lemma_bytes_lt_skip(a: Seq<u8>, b: Seq<u8>, i: int)
    requires
        0 <= i <= a.len(),
        i <= b.len(),
        forall|j: int| 0 <= j < i ==> a[j] == b[j],
    ensures
        bytes_lt(a, b) == bytes_lt(a.skip(i), b.skip(i)),
    decreases i,
{
    if i == 0 {
        assert(a.skip(0) =~= a);
        assert(b.skip(0) =~= b);
    } else {
        lemma_bytes_lt_skip(a.drop_first(), b.drop_first(), i - 1);
        assert(a.drop_first().skip(i - 1) =~= a.skip(i));
        assert(b.drop_first().skip(i - 1) =~= b.skip(i));
    }
}

/// No name sorts before itself.
pub proof fn lemma_name_lt_irreflexive(a: Seq<char>)
    ensures
        !name_lt(a, a),
{
    lemma_bytes_lt_irreflexive(encode_utf8(a));
}

/// The order of names is transitive.
pub proof fn lemma_name_lt_transitive(a: Seq<char>, b: Seq<char>, c: Seq<char>)
    requires
        name_lt(a, b),
        name_lt(b, c),
    ensures
        name_lt(a, c),
{
    lemma_bytes_lt_transitive(encode_utf8(a), encode_utf8(b), encode_utf8(c));
}

/// Of two different names one sorts before the other.
pub proof fn lemma_name_lt_total(a: Seq<char>, b: Seq<char>)
    ensures
        name_lt(a, b) || a == b || name_lt(b, a),
{
    lemma_bytes_lt_total(encode_utf8(a), encode_utf8(b));
    if encode_utf8(a) == encode_utf8(b) {
        encode_utf8_decode_utf8(a);
        encode_utf8_decode_utf8(b);
    }
}

/// Where `a` stands relative to `b` in the order of names.
pub fn name_order(a: &str, b: &str) -> (r: Rank)
    ensures
        r == Rank::Before <==> name_lt(a@, b@),
        r == Rank::Same <==> a@ == b@,
        r == Rank::After <==> name_lt(b@, a@),
{
    let x = a.as_bytes();
    let y = b.as_bytes();
    let n = x.len();
    let m = y.len();
    let mut i: usize = 0;
    while i < n && i < m
        invariant
            n == x@.len(),
            m == y@.len(),
            i <= n,
            i <= m,
            x@ == encode_utf8(a@),
            y@ == encode_utf8(b@),
            forall|j: int| 0 <= j < i ==> x@[j] == y@[j],
        decreases n - i,
    {
        if x[i] != y[i] {
            proof {
                lemma_bytes_lt_skip(x@, y@, i as int);
                lemma_bytes_lt_skip(y@, x@, i as int);
                assert(x@.skip(i as int)[0] == x@[i as int]);
                assert(y@.skip(i as int)[0] == y@[i as int]);
            }
            if x[i] < y[i] {
                return Rank::Before;
            } else {
                return Rank::After;
            }
        }
        i = i + 1;
    }
    proof {
        lemma_bytes_lt_skip(x@, y@, i as int);
        lemma_bytes_lt_skip(y@, x@, i as int);
        lemma_bytes_lt_irreflexive(x@);
        lemma_name_lt_total(a@, b@);
        if n == m {
            assert(x@ =~= y@);
        }
    }
    if n < m {
        Rank::Before
    } else if n == m {
        Rank::Same
    } else {
        Rank::After
    }
}

/// Joins a directory path and a name.
pub fn join(base: &str, name: &str) -> (r: String)
    ensures
        r@ == join_path(base@, name@),
{
    let mut r = base.to_owned();
    let n = base.unicode_len();
    if n > 0 && base.get_char(n - 1) != '/' {
        proof {
            reveal_strlit("/");
        }
        r.append("/");
        assert("/"@ =~= seq!['/']);
    }
    r.append(name);
    r
}

/// Whether `name` is the replacement sentinel.
pub fn is_replace_marker(name: &str) -> (r: bool)
    ensures
        r == (name@ == replace_marker()),
{
    proof {
        reveal_strlit(".replace");
        assert(".replace"@ =~= replace_marker());
    }
    name_order(name, ".replace") == Rank::Same
}

} // verus!
