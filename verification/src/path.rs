//! File paths as lists of components.
//!
//! A path is what remains of a POSIX path when its separators are taken away: repeated and
//! trailing separators are dropped, and so is every `.` but a leading one.
use vstd::prelude::*;
use vstd::relations::total_ordering;

use crate::lex::{
    bytes_eq, bytes_lt, lemma_lex_irreflexive, lemma_lex_total, lemma_lex_transitive, lex_lt,
};
use crate::sorting::Ranked;

pub mod laws;

verus! {

/// One component of a path.
#[derive(Debug, PartialEq, Eq, Hash)]
pub enum Component {
    /// The root directory, `/`.
    RootDir,
    /// The current directory, `.`.
    CurDir,
    /// The parent directory, `..`.
    ParentDir,
    /// A name.
    Normal(Vec<u8>),
}

/// The model of a [`Component`].
pub ghost enum Part {
    Root,
    Cur,
    Parent,
    Normal(Seq<u8>),
}

impl View for Component {
    type V = Part;

    open spec fn view(&self) -> Part {
        match self {
            Component::RootDir => Part::Root,
            Component::CurDir => Part::Cur,
            Component::ParentDir => Part::Parent,
            Component::Normal(name) => Part::Normal(name@),
        }
    }
}

/// The parts behind a list of components.
pub open spec fn parts_of(s: Seq<Component>) -> Seq<Part> {
    Seq::new(s.len(), |i: int| s[i]@)
}

/// A path.
#[derive(Debug, PartialEq, Eq, Hash)]
pub struct FilePath {
    components: Vec<Component>,
}

impl View for FilePath {
    type V = Seq<Part>;

    closed spec fn view(&self) -> Seq<Part> {
        parts_of(self.components@)
    }
}

/// A path after one more segment between separators. An empty segment adds nothing, and neither
/// does `.` unless it stands first.
pub open spec fn extend(path: Seq<Part>, segment: Seq<u8>) -> Seq<Part> {
    if segment.len() == 0 {
        path
    } else if segment == seq![46u8] {
        if path.len() == 0 {
            path.push(Part::Cur)
        } else {
            path
        }
    } else if segment == seq![46u8, 46u8] {
        path.push(Part::Parent)
    } else {
        path.push(Part::Normal(segment))
    }
}

/// The path that the complete segments of `text` give when they are added to `start`, and the
/// segment behind the last separator.
pub open spec fn walk(start: Seq<Part>, text: Seq<u8>) -> (Seq<Part>, Seq<u8>)
    decreases text.len(),
{
    if text.len() == 0 {
        (start, Seq::empty())
    } else {
        let (path, segment) = walk(start, text.drop_last());
        if text.last() == 47 {
            (extend(path, segment), Seq::empty())
        } else {
            (path, segment.push(text.last()))
        }
    }
}

/// The path `text` as seen from `base`: an absolute one replaces it.
pub open spec fn join(base: Seq<Part>, text: Seq<u8>) -> Seq<Part> {
    let start = if text.len() > 0 && text[0] == 47 {
        seq![Part::Root]
    } else {
        base
    };
    let (path, segment) = walk(start, text);
    extend(path, segment)
}

/// The path that `text` stands for.
pub open spec fn path_of(text: Seq<u8>) -> Seq<Part> {
    join(Seq::empty(), text)
}

/// Going on to a name that has no separators.
pub proof fn lemma_join_name(base: Seq<Part>, name: Seq<u8>)
    requires
        forall|i: int| 0 <= i < name.len() ==> #[trigger] name[i] != 47,
    ensures
        join(base, name) == extend(base, name),
{
    lemma_walk_name(base, name);
}

proof fn lemma_walk_name(base: Seq<Part>, name: Seq<u8>)
    requires
        forall|i: int| 0 <= i < name.len() ==> #[trigger] name[i] != 47,
    ensures
        walk(base, name) == (base, name),
    decreases name.len(),
{
    if name.len() > 0 {
        lemma_walk_name(base, name.drop_last());
        assert(name.drop_last().push(name.last()) =~= name);
    }
}

/// The text of one component.
pub open spec fn part_text(part: Part) -> Seq<u8> {
    match part {
        Part::Root => seq![47u8],
        Part::Cur => seq![46u8],
        Part::Parent => seq![46u8, 46u8],
        Part::Normal(name) => name,
    }
}

/// The components of a path without `.`, and without each name that `..` follows. There is no way
/// up from the root.
pub open spec fn clean_parts(path: Seq<Part>) -> Seq<Part>
    decreases path.len(),
{
    if path.len() == 0 {
        path
    } else {
        let out = clean_parts(path.drop_last());
        match path.last() {
            Part::Cur => out,
            Part::Parent => if out.len() > 0 && out.last() is Root {
                out
            } else if out.len() > 0 && out.last() is Normal {
                out.drop_last()
            } else {
                out.push(Part::Parent)
            },
            part => out.push(part),
        }
    }
}

/// The shortest path to the same place, as far as the text shows it.
pub open spec fn clean(path: Seq<Part>) -> Seq<Part> {
    if clean_parts(path).len() == 0 {
        seq![Part::Cur]
    } else {
        clean_parts(path)
    }
}

/// Where the kind of a component stands in the order of paths.
pub open spec fn rank(part: Part) -> int {
    match part {
        Part::Root => 0,
        Part::Cur => 1,
        Part::Parent => 2,
        Part::Normal(_) => 3,
    }
}

/// One component comes strictly before another: first by kind, then by name.
pub open spec fn part_lt(a: Part, b: Part) -> bool {
    match (a, b) {
        (Part::Normal(x), Part::Normal(y)) => lex_lt(x, y),
        _ => rank(a) < rank(b),
    }
}

/// `a` and `b` agree before component `i`, and at `i` the first one ends or is smaller.
pub open spec fn parts_diverge_at(a: Seq<Part>, b: Seq<Part>, i: int) -> bool {
    &&& 0 <= i <= a.len()
    &&& i < b.len()
    &&& forall|k: int| 0 <= k < i ==> a[k] == b[k]
    &&& i == a.len() || part_lt(a[i], b[i])
}

/// One path comes strictly before another.
pub open spec fn path_lt(a: Seq<Part>, b: Seq<Part>) -> bool {
    exists|i: int| parts_diverge_at(a, b, i)
}

/// The order of paths.
pub open spec fn path_le() -> spec_fn(Seq<Part>, Seq<Part>) -> bool {
    |a: Seq<Part>, b: Seq<Part>| a == b || path_lt(a, b)
}

proof fn lemma_part_transitive(a: Part, b: Part, c: Part)
    requires
        part_lt(a, b),
        part_lt(b, c),
    ensures
        part_lt(a, c),
{
    if let (Part::Normal(x), Part::Normal(y), Part::Normal(z)) = (a, b, c) {
        lemma_lex_transitive(x, y, z);
    }
}

proof fn lemma_part_irreflexive(a: Part)
    ensures
        !part_lt(a, a),
{
    if let Part::Normal(x) = a {
        lemma_lex_irreflexive(x);
    }
}

proof fn lemma_part_total(a: Part, b: Part)
    ensures
        a == b || part_lt(a, b) || part_lt(b, a),
{
    if let (Part::Normal(x), Part::Normal(y)) = (a, b) {
        lemma_lex_total(x, y);
    }
}

pub proof fn lemma_path_transitive(a: Seq<Part>, b: Seq<Part>, c: Seq<Part>)
    requires
        path_lt(a, b),
        path_lt(b, c),
    ensures
        path_lt(a, c),
{
    let i = choose|i: int| parts_diverge_at(a, b, i);
    let j = choose|j: int| parts_diverge_at(b, c, j);
    if i < j {
        assert(parts_diverge_at(a, c, i));
    } else if j < i {
        assert(parts_diverge_at(a, c, j));
    } else {
        if i < a.len() {
            lemma_part_transitive(a[i], b[i], c[i]);
        }
        assert(parts_diverge_at(a, c, i));
    }
}

pub proof fn lemma_path_irreflexive(a: Seq<Part>)
    ensures
        !path_lt(a, a),
{
    if path_lt(a, a) {
        let i = choose|i: int| parts_diverge_at(a, a, i);
        lemma_part_irreflexive(a[i]);
    }
}

proof fn lemma_path_total(a: Seq<Part>, b: Seq<Part>, i: int)
    requires
        0 <= i <= a.len(),
        i <= b.len(),
        forall|k: int| 0 <= k < i ==> a[k] == b[k],
    ensures
        a == b || path_lt(a, b) || path_lt(b, a),
    decreases a.len() - i,
{
    if i == a.len() && i == b.len() {
        assert(a =~= b);
    } else if i == a.len() {
        assert(parts_diverge_at(a, b, i));
    } else if i == b.len() {
        assert(parts_diverge_at(b, a, i));
    } else if a[i] == b[i] {
        lemma_path_total(a, b, i + 1);
    } else {
        lemma_part_total(a[i], b[i]);
        if part_lt(a[i], b[i]) {
            assert(parts_diverge_at(a, b, i));
        } else {
            assert(parts_diverge_at(b, a, i));
        }
    }
}

/// The order of paths is a total order.
pub proof fn lemma_path_le_total()
    ensures
        total_ordering(path_le()),
{
    let le = path_le();
    assert forall|a: Seq<Part>, b: Seq<Part>| #[trigger] le(a, b) && #[trigger] le(b, a) implies a
        == b by {
        if a != b {
            lemma_path_transitive(a, b, a);
            lemma_path_irreflexive(a);
        }
    }
    assert forall|a: Seq<Part>, b: Seq<Part>, c: Seq<Part>| #[trigger]
        le(a, b) && #[trigger] le(b, c) implies le(a, c) by {
        if a != b && b != c {
            lemma_path_transitive(a, b, c);
        }
    }
    assert forall|a: Seq<Part>, b: Seq<Part>| #[trigger] le(a, b) || #[trigger] le(b, a) by {
        lemma_path_total(a, b, 0);
    }
}

impl Component {
    /// A second component like this one.
    pub fn duplicate(&self) -> (r: Component)
        ensures
            r@ == self@,
    {
        match self {
            Component::RootDir => Component::RootDir,
            Component::CurDir => Component::CurDir,
            Component::ParentDir => Component::ParentDir,
            Component::Normal(name) => Component::Normal(copy_bytes(name)),
        }
    }

    /// Whether two components are the same.
    pub fn same(&self, other: &Component) -> (r: bool)
        ensures
            r == (self@ == other@),
    {
        match (self, other) {
            (Component::RootDir, Component::RootDir) => true,
            (Component::CurDir, Component::CurDir) => true,
            (Component::ParentDir, Component::ParentDir) => true,
            (Component::Normal(a), Component::Normal(b)) => bytes_eq(a, b),
            _ => false,
        }
    }

    /// Whether this component comes strictly before another.
    pub fn before(&self, other: &Component) -> (r: bool)
        ensures
            r == part_lt(self@, other@),
    {
        match (self, other) {
            (Component::Normal(a), Component::Normal(b)) => bytes_lt(a, b),
            _ => self.kind() < other.kind(),
        }
    }

    fn kind(&self) -> (r: u8)
        ensures
            r == rank(self@),
    {
        match self {
            Component::RootDir => 0,
            Component::CurDir => 1,
            Component::ParentDir => 2,
            Component::Normal(_) => 3,
        }
    }

    /// The text of this component.
    pub fn to_bytes(&self) -> (r: Vec<u8>)
        ensures
            r@ == part_text(self@),
    {
        match self {
            Component::RootDir => vec![47u8],
            Component::CurDir => vec![46u8],
            Component::ParentDir => vec![46u8, 46u8],
            Component::Normal(name) => copy_bytes(name),
        }
    }
}

/// A copy of some bytes.
pub fn copy_bytes(bytes: &[u8]) -> (r: Vec<u8>)
    ensures
        r@ == bytes@,
{
    let mut r: Vec<u8> = Vec::with_capacity(bytes.len());
    r.extend_from_slice(bytes);
    assert(r@ =~= bytes@);
    r
}

/// The components after one more segment.
fn push_segment(components: &mut Vec<Component>, segment: Vec<u8>)
    ensures
        parts_of(final(components)@) == extend(parts_of(old(components)@), segment@),
{
    let ghost before = parts_of(components@);
    if segment.len() == 0 {
        return;
    }
    if segment.len() == 1 && segment[0] == 46 {
        assert(segment@ =~= seq![46u8]);
        if components.len() == 0 {
            components.push(Component::CurDir);
            assert(parts_of(components@) =~= before.push(Part::Cur));
        }
        return;
    }
    assert(segment@ != seq![46u8]) by {
        assert(seq![46u8].len() == 1 && seq![46u8][0] == 46);
    }
    if segment.len() == 2 && segment[0] == 46 && segment[1] == 46 {
        assert(segment@ =~= seq![46u8, 46u8]);
        components.push(Component::ParentDir);
        assert(parts_of(components@) =~= before.push(Part::Parent));
        return;
    }
    assert(segment@ != seq![46u8, 46u8]) by {
        let dots = seq![46u8, 46u8];
        assert(dots.len() == 2 && dots[0] == 46 && dots[1] == 46);
    }
    let ghost name = segment@;
    components.push(Component::Normal(segment));
    assert(parts_of(components@) =~= before.push(Part::Normal(name)));
}

impl FilePath {
    /// The empty path.
    pub fn new() -> (r: FilePath)
        ensures
            r@ == Seq::<Part>::empty(),
    {
        let r = FilePath { components: Vec::new() };
        assert(r@ =~= Seq::<Part>::empty());
        r
    }

    /// The path that `text` stands for.
    pub fn from_bytes(text: &[u8]) -> (r: FilePath)
        ensures
            r@ == path_of(text@),
    {
        let mut r = FilePath::new();
        r.push(text);
        r
    }

    /// The number of components.
    pub fn len(&self) -> (r: usize)
        ensures
            r == self@.len(),
    {
        self.components.len()
    }

    /// Whether this is the empty path.
    pub fn is_empty(&self) -> (r: bool)
        ensures
            r == (self@.len() == 0),
    {
        self.components.len() == 0
    }

    /// The component at position `i`.
    pub fn component(&self, i: usize) -> (r: &Component)
        requires
            i < self@.len(),
        ensures
            r@ == self@[i as int],
    {
        &self.components[i]
    }

    /// Goes on to `text` from here.
    pub fn push(&mut self, text: &[u8])
        ensures
            final(self)@ == join(old(self)@, text@),
    {
        let ghost base = self@;
        if text.len() > 0 && text[0] == 47 {
            let mut root: Vec<Component> = Vec::new();
            root.push(Component::RootDir);
            self.components = root;
            assert(self@ =~= seq![Part::Root]);
        }
        let ghost start = self@;
        let mut segment: Vec<u8> = Vec::new();
        let mut i: usize = 0;
        assert(text@.take(0) =~= Seq::<u8>::empty());
        while i < text.len()
            invariant
                i <= text@.len(),
                walk(start, text@.take(i as int)) == (self@, segment@),
            decreases text@.len() - i,
        {
            let b: u8 = text[i];
            proof {
                let t = text@.take(i + 1);
                assert(t.drop_last() =~= text@.take(i as int));
                assert(t.last() == b);
            }
            if b == 47 {
                let mut done: Vec<u8> = Vec::new();
                std::mem::swap(&mut done, &mut segment);
                push_segment(&mut self.components, done);
            } else {
                segment.push(b);
            }
            i = i + 1;
        }
        assert(text@.take(i as int) =~= text@);
        push_segment(&mut self.components, segment);
    }

    /// The path `text` as seen from here.
    pub fn join(&self, text: &[u8]) -> (r: FilePath)
        ensures
            r@ == join(self@, text@),
    {
        let mut r = self.duplicate();
        r.push(text);
        r
    }

    /// A second path like this one.
    pub fn duplicate(&self) -> (r: FilePath)
        ensures
            r@ == self@,
    {
        self.first(self.components.len())
    }

    /// The first `n` components.
    pub fn first(&self, n: usize) -> (r: FilePath)
        requires
            n <= self@.len(),
        ensures
            r@ == self@.take(n as int),
    {
        let mut components: Vec<Component> = Vec::new();
        let mut i: usize = 0;
        while i < n
            invariant
                i <= n <= self.components@.len(),
                components@.len() == i,
                forall|k: int| 0 <= k < i ==> (#[trigger] components@[k])@ == self.components@[k]@,
            decreases n - i,
        {
            components.push(self.components[i].duplicate());
            i = i + 1;
        }
        let r = FilePath { components };
        assert(r@ =~= self@.take(n as int));
        r
    }

    /// The components from position `n` on.
    pub fn rest(&self, n: usize) -> (r: FilePath)
        requires
            n <= self@.len(),
        ensures
            r@ == self@.skip(n as int),
    {
        let mut components: Vec<Component> = Vec::new();
        let mut i: usize = n;
        while i < self.components.len()
            invariant
                n <= i <= self.components@.len(),
                components@.len() == i - n,
                forall|k: int|
                    0 <= k < i - n ==> (#[trigger] components@[k])@ == self.components@[k + n]@,
            decreases self.components@.len() - i,
        {
            components.push(self.components[i].duplicate());
            i = i + 1;
        }
        let r = FilePath { components };
        assert(r@ =~= self@.skip(n as int));
        r
    }

    /// The shortest path to the same place, as far as the text shows it.
    pub fn clean(&self) -> (r: FilePath)
        ensures
            r@ == clean(self@),
    {
        let mut out: Vec<Component> = Vec::new();
        let mut i: usize = 0;
        assert(self@.take(0) =~= Seq::<Part>::empty());
        assert(parts_of(out@) =~= Seq::<Part>::empty());
        while i < self.components.len()
            invariant
                i <= self.components@.len(),
                self@ == parts_of(self.components@),
                parts_of(out@) == clean_parts(self@.take(i as int)),
            decreases self.components@.len() - i,
        {
            let ghost before = parts_of(out@);
            proof {
                let t = self@.take(i + 1);
                assert(t.drop_last() =~= self@.take(i as int));
                assert(t.last() == self.components@[i as int]@);
                if out@.len() > 0 {
                    assert(before.last() == out@[out@.len() - 1]@);
                }
            }
            match &self.components[i] {
                Component::CurDir => {},
                Component::ParentDir => {
                    let n: usize = out.len();
                    if n > 0 && matches!(out[n - 1], Component::RootDir) {
                    } else if n > 0 && matches!(out[n - 1], Component::Normal(_)) {
                        out.pop();
                        assert(parts_of(out@) =~= before.drop_last());
                    } else {
                        out.push(Component::ParentDir);
                        assert(parts_of(out@) =~= before.push(Part::Parent));
                    }
                },
                c => {
                    out.push(c.duplicate());
                    assert(parts_of(out@) =~= before.push(c@));
                },
            }
            i = i + 1;
        }
        assert(self@.take(i as int) =~= self@);
        if out.len() == 0 {
            out.push(Component::CurDir);
            assert(parts_of(out@) =~= seq![Part::Cur]);
        }
        FilePath { components: out }
    }

    /// Whether two paths are the same.
    pub fn same(&self, other: &FilePath) -> (r: bool)
        ensures
            r == (self@ == other@),
    {
        assert(self@.len() == self.components@.len() && other@.len() == other.components@.len());
        self.components.len() == other.components.len() && self.starts_with(other)
    }

    /// Whether this path starts with the components of `prefix`.
    pub fn starts_with(&self, prefix: &FilePath) -> (r: bool)
        ensures
            r == prefix@.is_prefix_of(self@),
            self@.len() == prefix@.len() ==> r == (self@ == prefix@),
    {
        if prefix.components.len() > self.components.len() {
            return false;
        }
        let mut i: usize = 0;
        while i < prefix.components.len()
            invariant
                i <= prefix@.len() <= self@.len(),
                prefix@.len() == prefix.components@.len(),
                self@.len() == self.components@.len(),
                forall|k: int| 0 <= k < i ==> #[trigger] self@[k] == prefix@[k],
            decreases prefix@.len() - i,
        {
            assert(self@[i as int] == self.components@[i as int]@);
            assert(prefix@[i as int] == prefix.components@[i as int]@);
            if !self.components[i].same(&prefix.components[i]) {
                return false;
            }
            i = i + 1;
        }
        assert(prefix@ =~= self@.subrange(0, prefix@.len() as int));
        proof {
            if self@.len() == prefix@.len() {
                assert(self@ =~= prefix@);
            }
        }
        true
    }
}

impl Ranked for FilePath {
    open spec fn le_spec() -> spec_fn(Seq<Part>, Seq<Part>) -> bool {
        path_le()
    }

    proof fn lemma_total() {
        lemma_path_le_total();
    }

    fn le(&self, other: &Self) -> (r: bool) {
        let mut i: usize = 0;
        while i < self.components.len() && i < other.components.len()
            invariant
                i <= self@.len(),
                i <= other@.len(),
                self@.len() == self.components@.len(),
                other@.len() == other.components@.len(),
                forall|k: int| 0 <= k < i ==> #[trigger] self@[k] == other@[k],
            decreases self@.len() - i,
        {
            assert(self@[i as int] == self.components@[i as int]@);
            assert(other@[i as int] == other.components@[i as int]@);
            if self.components[i].before(&other.components[i]) {
                assert(parts_diverge_at(self@, other@, i as int));
                return true;
            }
            if other.components[i].before(&self.components[i]) {
                assert(parts_diverge_at(other@, self@, i as int));
                proof {
                    if self@ == other@ || path_lt(self@, other@) {
                        if self@ != other@ {
                            lemma_path_transitive(self@, other@, self@);
                        }
                        lemma_path_irreflexive(self@);
                    }
                }
                return false;
            }
            proof {
                lemma_part_total(self@[i as int], other@[i as int]);
            }
            i = i + 1;
        }
        if i == self.components.len() {
            proof {
                if i < other@.len() {
                    assert(parts_diverge_at(self@, other@, i as int));
                } else {
                    assert(self@ =~= other@);
                }
            }
            true
        } else {
            proof {
                assert(parts_diverge_at(other@, self@, i as int));
                if path_lt(self@, other@) {
                    lemma_path_transitive(self@, other@, self@);
                    lemma_path_irreflexive(self@);
                }
            }
            false
        }
    }
}

} // verus!
