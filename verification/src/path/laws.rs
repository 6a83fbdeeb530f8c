//! What holds of all paths.
use vstd::prelude::*;

use crate::lex::lex_lt;
use crate::path::{
    clean, clean_parts, extend, join, part_lt, parts_diverge_at, path_lt, path_of, walk, Part,
};

verus! {

/// Going on to one text and then to another is going on to both with a separator between them. An
/// absolute text goes back to the root.
pub proof fn law_separators_join(base: Seq<Part>, first: Seq<u8>, second: Seq<u8>)
    ensures
        first.len() > 0 && !(second.len() > 0 && second[0] == 47) ==> join(
            base,
            first + seq![47u8] + second,
        ) == join(join(base, first), second),
        join(base, seq![47u8] + second) == path_of(seq![47u8] + second),
        path_of(seq![47u8]) == seq![Part::Root],
{
    let whole = first + seq![47u8] + second;
    if first.len() > 0 && !(second.len() > 0 && second[0] == 47) {
        let start = if first[0] == 47 {
            seq![Part::Root]
        } else {
            base
        };
        lemma_walk_on(start, first, second);
    }
    let root = seq![47u8];
    assert(root.drop_last() =~= Seq::<u8>::empty());
    reveal_with_fuel(walk, 2);
}

proof fn lemma_walk_on(start: Seq<Part>, first: Seq<u8>, second: Seq<u8>)
    ensures
        walk(start, first + seq![47u8] + second) == walk(
            extend(walk(start, first).0, walk(start, first).1),
            second,
        ),
    decreases second.len(),
{
    let whole = first + seq![47u8] + second;
    if second.len() == 0 {
        assert(whole.drop_last() =~= first);
    } else {
        lemma_walk_on(start, first, second.drop_last());
        assert(whole.drop_last() =~= first + seq![47u8] + second.drop_last());
    }
}

/// A name without separators leads to what it names, `..` to the directory above, and an empty text
/// nowhere. Behind other components `.` leads nowhere.
pub proof fn law_names_lead_on(base: Seq<Part>, name: Seq<u8>)
    ensures
        join(base, Seq::empty()) == base,
        join(base, seq![46u8, 46u8]) == base.push(Part::Parent),
        base.len() > 0 ==> join(base, seq![46u8]) == base,
        path_of(seq![46u8]) == seq![Part::Cur],
        name.len() > 0 && name != seq![46u8] && name != seq![46u8, 46u8] && (forall|i: int|
            0 <= i < name.len() ==> #[trigger] name[i] != 47) ==> join(base, name) == base.push(
            Part::Normal(name),
        ),
{
    crate::path::lemma_join_name(base, Seq::empty());
    crate::path::lemma_join_name(base, seq![46u8, 46u8]);
    crate::path::lemma_join_name(base, seq![46u8]);
    crate::path::lemma_join_name(Seq::empty(), seq![46u8]);
    assert(seq![46u8].len() != seq![46u8, 46u8].len());
    assert(Seq::<Part>::empty().push(Part::Cur) =~= seq![Part::Cur]);
    if forall|i: int| 0 <= i < name.len() ==> #[trigger] name[i] != 47 {
        crate::path::lemma_join_name(base, name);
    }
}

/// A path without `.`, in which `..` stands only at the beginning.
pub open spec fn is_clean(path: Seq<Part>) -> bool {
    &&& forall|i: int| 0 <= i < path.len() ==> !(#[trigger] path[i] is Cur)
    &&& forall|i: int|
        0 < i < path.len() && (#[trigger] path[i] is Parent) ==> path[i - 1] is Parent
}

proof fn lemma_clean_shape(path: Seq<Part>)
    ensures
        is_clean(clean_parts(path)),
    decreases path.len(),
{
    if path.len() > 0 {
        lemma_clean_shape(path.drop_last());
        let before = clean_parts(path.drop_last());
        let after = clean_parts(path);
        assert forall|i: int| 0 <= i < after.len() implies !(#[trigger] after[i] is Cur) by {
            if i < before.len() {
                assert(after[i] == before[i]);
            }
        }
        assert forall|i: int| 0 < i < after.len() && (#[trigger] after[i] is Parent) implies after[i
            - 1] is Parent by {
            assert(after[i - 1] == before[i - 1]);
            if i < before.len() {
                assert(after[i] == before[i]);
            } else {
                assert(before.last() == before[i - 1]);
                assert(!(before[i - 1] is Cur));
            }
        }
    }
}

proof fn lemma_clean_stays(path: Seq<Part>)
    requires
        is_clean(path),
    ensures
        clean_parts(path) == path,
    decreases path.len(),
{
    if path.len() > 0 {
        let t = path.drop_last();
        assert forall|i: int| 0 <= i < t.len() implies !(#[trigger] t[i] is Cur) by {
            assert(t[i] == path[i]);
        }
        assert forall|i: int| 0 < i < t.len() && (#[trigger] t[i] is Parent) implies t[i
            - 1] is Parent by {
            assert(t[i] == path[i]);
        }
        lemma_clean_stays(t);
        assert(!(path[path.len() - 1] is Cur));
        if path.last() is Parent && t.len() > 0 {
            assert(path[path.len() - 1] is Parent);
            assert(t.last() is Parent);
        }
        assert(t.push(path.last()) =~= path);
    }
}

/// Cleaning a path leaves out `.` and every name that `..` follows, and nothing else: a clean path
/// stays as it is. Where nothing is left, `.` stands for it.
pub proof fn law_cleaning(path: Seq<Part>)
    ensures
        is_clean(clean(path)) || clean(path) == seq![Part::Cur],
        clean(path).len() > 0,
        is_clean(path) && path.len() > 0 ==> clean(path) == path,
        clean(clean(path)) == clean(path),
        clean(Seq::empty()) == seq![Part::Cur],
{
    lemma_clean_shape(path);
    lemma_clean_stays(clean_parts(path));
    if is_clean(path) {
        lemma_clean_stays(path);
    }
    let cur = seq![Part::Cur];
    assert(cur.drop_last() =~= Seq::<Part>::empty());
    reveal_with_fuel(clean_parts, 2);
}

/// A step to `.`, or to a name and back, changes nothing. There is no way up from the root. A name
/// at the end of a path stays there.
pub proof fn law_detours_are_left_out(path: Seq<Part>, name: Seq<u8>)
    ensures
        clean(path.push(Part::Cur)) == clean(path),
        clean(path.push(Part::Normal(name)).push(Part::Parent)) == clean(path),
        clean(path.push(Part::Root).push(Part::Parent)) == clean(path.push(Part::Root)),
        clean(path.push(Part::Normal(name))).last() == Part::Normal(name),
        clean(path) != seq![Part::Cur] ==> clean(path.push(Part::Normal(name))) == clean(path).push(
            Part::Normal(name),
        ),
{
    let n = Part::Normal(name);
    assert(path.push(Part::Cur).drop_last() =~= path);
    assert(path.push(n).drop_last() =~= path);
    assert(path.push(Part::Root).drop_last() =~= path);
    assert(path.push(n).push(Part::Parent).drop_last() =~= path.push(n));
    assert(path.push(Part::Root).push(Part::Parent).drop_last() =~= path.push(Part::Root));
    reveal_with_fuel(clean_parts, 3);
    let out = clean_parts(path);
    assert(out.push(n).drop_last() =~= out);
}

/// Paths are in the order of their first components that differ: the root directory, `.`, `..`, and
/// then names in the order of their bytes. A path comes before those that go on from it.
pub proof fn law_order_of_paths(
    a: Seq<Part>,
    x: Part,
    y: Part,
    b: Seq<Part>,
    c: Seq<Part>,
    m: Seq<u8>,
    n: Seq<u8>,
)
    ensures
        path_lt(a, a + seq![x] + b),
        part_lt(x, y) ==> path_lt(a + seq![x] + b, a + seq![y] + c),
        part_lt(Part::Root, Part::Cur),
        part_lt(Part::Cur, Part::Parent),
        part_lt(Part::Parent, Part::Normal(n)),
        part_lt(Part::Normal(m), Part::Normal(n)) <==> lex_lt(m, n),
{
    let one = a + seq![x] + b;
    let two = a + seq![y] + c;
    assert(parts_diverge_at(a, one, a.len() as int));
    if part_lt(x, y) {
        assert(one[a.len() as int] == x);
        assert(two[a.len() as int] == y);
        assert(parts_diverge_at(one, two, a.len() as int));
    }
}

/// Byte strings are in the order of their first bytes that differ, and one comes before those that
/// it is the beginning of.
pub proof fn law_order_of_bytes(a: Seq<u8>, x: u8, y: u8, b: Seq<u8>, c: Seq<u8>)
    ensures
        lex_lt(a, a + seq![x] + b),
        x < y ==> lex_lt(a + seq![x] + b, a + seq![y] + c),
{
    let one = a + seq![x] + b;
    let two = a + seq![y] + c;
    assert(crate::lex::diverges_at(a, one, a.len() as int));
    if x < y {
        assert(one[a.len() as int] == x);
        assert(two[a.len() as int] == y);
        assert(crate::lex::diverges_at(one, two, a.len() as int));
    }
}

} // verus!
