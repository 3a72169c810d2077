//! File paths as lists of components, with names as raw bytes.
//!
//! A path is taken apart once, when it is parsed: repeated separators and
//! inner `.` components are dropped, so two spellings of one path are equal, and
//! it is shown in the shortest of them.
use vstd::prelude::*;
use crate::order::{
    differs_at, law_lexicographic_order, lex_antisymmetric, lex_le, lex_total, lex_transitive,
    strict_total, Key, Ranked,
};
use crate::strings::{lossy, lossy_text};

verus! {

/// One component of a path.
#[derive(Debug)]
pub enum Component {
    /// The leading separator of an absolute path.
    RootDir,
    /// A leading `.`.
    CurDir,
    /// A `..`.
    ParentDir,
    /// A name.
    Normal(Vec<u8>),
}

/// One component of a path, with its name as a sequence.
pub enum Part {
    Root,
    Cur,
    Parent,
    Normal(Seq<u8>),
}

impl View for Component {
    type V = Part;

    open spec fn view(&self) -> Part {
        match self {
            Component::RootDir => Part::Root,
            Component::CurDir => Part::Cur,
            Component::ParentDir => Part::Parent,
            Component::Normal(name) => Part::Normal(name@),
        }
    }
}

pub open spec fn slash() -> u8 {
    0x2f
}

pub open spec fn dot() -> u8 {
    0x2e
}

/// The name of the current directory.
pub open spec fn dot_name() -> Seq<u8> {
    seq![dot()]
}

/// The name of the parent directory.
pub open spec fn dot_dot_name() -> Seq<u8> {
    seq![dot(), dot()]
}

/// A name that can stand for a directory entry.
pub open spec fn name_ok(name: Seq<u8>) -> bool {
    &&& name.len() > 0
    &&& !name.contains(slash())
    &&& name != dot_name()
    &&& name != dot_dot_name()
}

/// A component list as parsing leaves it: the root and `.` stand only in
/// front, and every name is a proper one.
pub open spec fn path_wf(s: Seq<Part>) -> bool {
    forall|i: int|
        0 <= i < s.len() ==> match #[trigger] s[i] {
            Part::Root => i == 0,
            Part::Cur => i == 0,
            Part::Parent => true,
            Part::Normal(name) => name_ok(name),
        }
}

/// A path.
#[derive(Debug)]
pub struct Path {
    parts: Vec<Component>,
}

impl View for Path {
    type V = Seq<Part>;

    closed spec fn view(&self) -> Seq<Part> {
        Seq::new(self.parts@.len(), |i: int| self.parts@[i]@)
    }
}

// ---- reading and writing ----

/// The pieces of `b` between separators.
pub open spec fn pieces(b: Seq<u8>) -> Seq<Seq<u8>>
    decreases b.len(),
{
    if b.len() == 0 {
        seq![Seq::empty()]
    } else {
        let front = pieces(b.drop_last());
        if b.last() == slash() {
            front.push(Seq::empty())
        } else {
            front.drop_last().push(front.last().push(b.last()))
        }
    }
}

/// What a piece of a path adds to the components before it, `first` telling
/// whether it is the very first piece.
pub open spec fn with_piece(s: Seq<Part>, piece: Seq<u8>, first: bool) -> Seq<Part> {
    if piece.len() == 0 {
        s
    } else if piece == dot_name() {
        if first {
            s.push(Part::Cur)
        } else {
            s
        }
    } else if piece == dot_dot_name() {
        s.push(Part::Parent)
    } else {
        s.push(Part::Normal(piece))
    }
}

/// The components that a list of pieces stands for.
pub open spec fn steps(ps: Seq<Seq<u8>>) -> Seq<Part>
    decreases ps.len(),
{
    if ps.len() == 0 {
        Seq::empty()
    } else {
        with_piece(steps(ps.drop_last()), ps.last(), ps.len() == 1)
    }
}

/// Whether `b` begins with a separator.
pub open spec fn starts_at_root(b: Seq<u8>) -> bool {
    b.len() > 0 && b[0] == slash()
}

/// The components of the path that `b` spells.
pub open spec fn parse(b: Seq<u8>) -> Seq<Part> {
    if starts_at_root(b) {
        seq![Part::Root] + steps(pieces(b))
    } else {
        steps(pieces(b))
    }
}

/// The bytes of one component, the root being empty in front of its separator.
pub open spec fn part_bytes(p: Part) -> Seq<u8> {
    match p {
        Part::Root => Seq::empty(),
        Part::Cur => dot_name(),
        Part::Parent => dot_dot_name(),
        Part::Normal(name) => name,
    }
}

/// The shortest spelling of a path.
pub open spec fn render(s: Seq<Part>) -> Seq<u8>
    decreases s.len(),
{
    if s.len() == 0 {
        Seq::empty()
    } else if s.len() == 1 {
        if s[0] is Root {
            seq![slash()]
        } else {
            part_bytes(s[0])
        }
    } else if s.len() == 2 && s[0] is Root {
        seq![slash()] + part_bytes(s[1])
    } else {
        render(s.drop_last()).push(slash()) + part_bytes(s.last())
    }
}

/// A path as it is shown to a reader: bytes that are no valid text are
/// replaced.
pub open spec fn shown(s: Seq<Part>) -> Seq<char> {
    lossy_text(render(s))
}

// ---- taking apart and putting together ----

/// `s` without the components of `base`, if it begins with them.
pub open spec fn strip_prefix(s: Seq<Part>, base: Seq<Part>) -> Option<Seq<Part>> {
    if base.is_prefix_of(s) {
        Some(s.skip(base.len() as int))
    } else {
        None
    }
}

/// The path without its last component; the root and the empty path have none.
pub open spec fn parent(s: Seq<Part>) -> Option<Seq<Part>> {
    if s.len() == 0 || s.last() is Root {
        None
    } else {
        Some(s.drop_last())
    }
}

/// The name at the end of the path, if it ends in one.
pub open spec fn file_name(s: Seq<Part>) -> Option<Seq<u8>> {
    if s.len() == 0 {
        None
    } else {
        match s.last() {
            Part::Normal(name) => Some(name),
            _ => None,
        }
    }
}

/// Whether the path begins at the root.
pub open spec fn is_absolute(s: Seq<Part>) -> bool {
    s.len() > 0 && s[0] is Root
}

/// `s` without a leading `.`.
pub open spec fn without_cur(s: Seq<Part>) -> Seq<Part> {
    if s.len() > 0 && s[0] is Cur {
        s.drop_first()
    } else {
        s
    }
}

/// `b` as seen from `a`: an absolute `b` stands for itself.
pub open spec fn join(a: Seq<Part>, b: Seq<Part>) -> Seq<Part> {
    if is_absolute(b) || a.len() == 0 {
        b
    } else {
        a + without_cur(b)
    }
}

/// The position of the last dot of `name` that has something before it.
pub open spec fn ext_dot(name: Seq<u8>) -> Option<int>
    decreases name.len(),
{
    if name.len() <= 1 {
        None
    } else if name.last() == dot() {
        Some(name.len() - 1)
    } else {
        ext_dot(name.drop_last())
    }
}

/// What stands behind the last dot of `name`; a name whose only dot is its
/// first byte has no extension.
pub open spec fn name_ext(name: Seq<u8>) -> Option<Seq<u8>> {
    match ext_dot(name) {
        Some(i) => Some(name.skip(i + 1)),
        None => None,
    }
}

/// `name` without its extension and the dot before it.
pub open spec fn name_stem(name: Seq<u8>) -> Seq<u8> {
    match ext_dot(name) {
        Some(i) => name.take(i),
        None => name,
    }
}

/// The extension of the name at the end of the path.
pub open spec fn extension(s: Seq<Part>) -> Option<Seq<u8>> {
    match file_name(s) {
        Some(name) => name_ext(name),
        None => None,
    }
}

/// The path with the extension of its last name taken off.
pub open spec fn without_ext(s: Seq<Part>) -> Seq<Part> {
    match file_name(s) {
        Some(name) => with_piece(s.drop_last(), name_stem(name), s.len() == 1),
        None => s,
    }
}

// ---- order ----

/// Bytes are ordered by value.
pub open spec fn byte_lt() -> spec_fn(u8, u8) -> bool {
    |a: u8, b: u8| a < b
}

pub open spec fn part_rank(p: Part) -> int {
    match p {
        Part::Root => 0,
        Part::Cur => 1,
        Part::Parent => 2,
        Part::Normal(_) => 3,
    }
}

/// The root comes before `.`, that before `..`, and that before the names,
/// which are listed by their bytes.
pub open spec fn part_lt() -> spec_fn(Part, Part) -> bool {
    |a: Part, b: Part|
        part_rank(a) < part_rank(b) || (a is Normal && b is Normal && a != b && lex_le(
            a->Normal_0,
            b->Normal_0,
            byte_lt(),
        ))
}

/// Paths are listed component by component.
pub open spec fn path_le(a: Seq<Part>, b: Seq<Part>) -> bool {
    lex_le(a, b, part_lt())
}

pub proof fn lemma_byte_order()
    ensures
        strict_total(byte_lt()),
{
}

pub proof fn lemma_part_order()
    ensures
        strict_total(part_lt()),
{
    lemma_byte_order();
    let lt = part_lt();
    assert forall|a: Part, b: Part| #[trigger] lt(a, b) || a == b || lt(b, a) by {
        if a is Normal && b is Normal {
            lex_total(a->Normal_0, b->Normal_0, byte_lt());
        }
    }
    assert forall|a: Part, b: Part, c: Part| #[trigger] lt(a, b) && #[trigger] lt(b, c) implies lt(
        a,
        c,
    ) by {
        if a is Normal && b is Normal && c is Normal {
            lex_transitive(a->Normal_0, b->Normal_0, c->Normal_0, byte_lt());
            if a == c {
                lex_antisymmetric(a->Normal_0, b->Normal_0, byte_lt());
            }
        }
    }
}

// ---- facts about reading and writing ----

proof fn lemma_pieces_nonempty(b: Seq<u8>)
    ensures
        pieces(b).len() > 0,
    decreases b.len(),
{
    if b.len() > 0 {
        lemma_pieces_nonempty(b.drop_last());
    }
}

/// No piece holds a separator.
proof fn lemma_pieces_clean(b: Seq<u8>)
    ensures
        pieces(b).len() > 0,
        forall|i: int| 0 <= i < pieces(b).len() ==> !(#[trigger] pieces(b)[i]).contains(slash()),
        starts_at_root(b) ==> pieces(b)[0].len() == 0 && pieces(b).len() > 1,
    decreases b.len(),
{
    if b.len() > 0 {
        let front = b.drop_last();
        lemma_pieces_clean(front);
        if b.len() == 1 {
            assert(front =~= Seq::<u8>::empty());
        } else {
            assert(front[0] == b[0]);
        }
        assert forall|i: int| 0 <= i < pieces(b).len() implies !(#[trigger] pieces(
            b,
        )[i]).contains(slash()) by {
            if i < pieces(front).len() - 1 {
                assert(pieces(b)[i] == pieces(front)[i]);
            } else if b.last() != slash() {
                assert(!pieces(front)[pieces(front).len() - 1].contains(slash()));
            }
        }
    }
}

/// Clean pieces stand for a well-formed path, and one whose first piece is
/// empty has no leading `.`.
proof fn lemma_steps_wf(ps: Seq<Seq<u8>>)
    requires
        forall|i: int| 0 <= i < ps.len() ==> !(#[trigger] ps[i]).contains(slash()),
    ensures
        path_wf(steps(ps)),
        !is_absolute(steps(ps)),
        ps.len() > 0 && ps[0].len() == 0 ==> path_wf(seq![Part::Root] + steps(ps)),
        steps(ps).len() <= ps.len(),
    decreases ps.len(),
{
    if ps.len() > 0 {
        let front = ps.drop_last();
        lemma_steps_wf(front);
        let r = steps(front);
        let piece = ps.last();
        assert(!ps[ps.len() - 1].contains(slash()));
        assert(ps.len() == 1 ==> r.len() == 0);
        if ps.len() > 1 {
            assert(front[0] == ps[0]);
        }
        if ps[0].len() == 0 && ps.len() > 1 {
            let a = seq![Part::Root] + r;
            let c = seq![Part::Root] + steps(ps);
            assert forall|i: int| 0 <= i < c.len() implies match #[trigger] c[i] {
                Part::Root => i == 0,
                Part::Cur => i == 0,
                Part::Parent => true,
                Part::Normal(name) => name_ok(name),
            } by {
                if i < a.len() {
                    assert(c[i] == a[i]);
                }
            }
        }
    }
}

/// Parsing always yields a well-formed path.
pub proof fn lemma_parse_wf(b: Seq<u8>)
    ensures
        path_wf(parse(b)),
{
    lemma_pieces_clean(b);
    lemma_steps_wf(pieces(b));
}

/// A separator and a separator-free tail add one piece.
proof fn lemma_pieces_extend(x: Seq<u8>, y: Seq<u8>)
    requires
        !y.contains(slash()),
    ensures
        pieces(x.push(slash()) + y) == pieces(x).push(y),
    decreases y.len(),
{
    let b = x.push(slash()) + y;
    if y.len() == 0 {
        assert(b =~= x.push(slash()));
        assert(b.drop_last() =~= x);
        assert(y =~= Seq::<u8>::empty());
    } else {
        let z = y.drop_last();
        assert forall|i: int| 0 <= i < z.len() implies z[i] != slash() by {
            assert(y[i] == z[i] && y.contains(y[i]));
        }
        assert(!z.contains(slash()));
        lemma_pieces_extend(x, z);
        assert(b.drop_last() =~= x.push(slash()) + z);
        assert(y.contains(y.last()));
        assert(z.push(y.last()) =~= y);
        assert(pieces(x).push(z).drop_last() =~= pieces(x));
    }
}

proof fn lemma_pieces_whole(y: Seq<u8>)
    requires
        !y.contains(slash()),
    ensures
        pieces(y) == seq![y],
    decreases y.len(),
{
    if y.len() == 0 {
        assert(y =~= Seq::<u8>::empty());
    } else {
        let z = y.drop_last();
        assert forall|i: int| 0 <= i < z.len() implies z[i] != slash() by {
            assert(y[i] == z[i] && y.contains(y[i]));
        }
        assert(!z.contains(slash()));
        lemma_pieces_whole(z);
        assert(y.contains(y.last()));
        assert(z.push(y.last()) =~= y);
        assert(seq![z].drop_last().push(y) =~= seq![y]);
    }
}

proof fn lemma_part_bytes(p: Part)
    requires
        p is Normal ==> name_ok(p->Normal_0),
    ensures
        !part_bytes(p).contains(slash()),
        !(p is Root) ==> part_bytes(p).len() > 0,
{
}

/// Reading back what was written gives the same path.
pub proof fn law_parse_render(s: Seq<Part>)
    requires
        path_wf(s),
    ensures
        parse(render(s)) == s,
    decreases s.len(),
{
    if s.len() == 0 {
        reveal_with_fuel(steps, 2);
        assert(seq![Seq::<u8>::empty()].drop_last() =~= Seq::<Seq<u8>>::empty());
        assert(parse(render(s)) =~= s);
    } else {
        let last = s.last();
        assert(s[s.len() - 1] == last);
        let y = part_bytes(last);
        lemma_part_bytes(last);
        if s.len() == 1 {
            if last is Root {
                let e = Seq::<u8>::empty();
                let b = e.push(slash()) + e;
                assert(b =~= render(s));
                lemma_pieces_extend(e, e);
                reveal_with_fuel(steps, 3);
                assert(pieces(e) =~= seq![e]);
                assert(seq![e].push(e).drop_last() =~= seq![e]);
                assert(seq![e].drop_last() =~= Seq::<Seq<u8>>::empty());
                assert(parse(render(s)) =~= s);
            } else {
                lemma_pieces_whole(y);
                reveal_with_fuel(steps, 2);
                assert(seq![y].drop_last() =~= Seq::<Seq<u8>>::empty());
                assert(y.contains(y[0]));
                assert(parse(render(s)) =~= s);
            }
        } else {
            let front = s.drop_last();
            assert(path_wf(front)) by {
                assert forall|i: int| 0 <= i < front.len() implies match #[trigger] front[i] {
                    Part::Root => i == 0,
                    Part::Cur => i == 0,
                    Part::Parent => true,
                    Part::Normal(name) => name_ok(name),
                } by {
                    assert(front[i] == s[i]);
                }
            }
            law_parse_render(front);
            lemma_render_head(front);
            if s.len() == 2 && s[0] is Root {
                let e = Seq::<u8>::empty();
                assert(render(s) =~= e.push(slash()) + y);
                lemma_pieces_extend(e, y);
                assert(pieces(e) =~= seq![e]);
                let ps = seq![e].push(y);
                assert(ps.drop_last() =~= seq![e]);
                reveal_with_fuel(steps, 3);
                assert(seq![e].drop_last() =~= Seq::<Seq<u8>>::empty());
                assert(parse(render(s)) =~= s);
            } else {
                let x = render(front);
                lemma_pieces_extend(x, y);
                assert(pieces(x).push(y).drop_last() =~= pieces(x));
                lemma_pieces_nonempty(x);
                let b = x.push(slash()) + y;
                assert(b[0] == x[0]);
                assert(starts_at_root(b) == starts_at_root(x));
                assert(parse(b) =~= front.push(last));
                assert(front.push(last) =~= s);
            }
        }
    }
}

proof fn lemma_render_head(s: Seq<Part>)
    requires
        path_wf(s),
        s.len() > 0,
    ensures
        render(s).len() > 0,
    decreases s.len(),
{
    assert(s[s.len() - 1] == s.last());
    if s.len() == 1 {
        lemma_part_bytes(s[0]);
    }
}

// ---- byte strings ----

/// A copy of the bytes of `v` from `lo` up to `hi`.
pub fn slice(v: &Vec<u8>, lo: usize, hi: usize) -> (r: Vec<u8>)
    requires
        lo <= hi <= v@.len(),
    ensures
        r@ == v@.subrange(lo as int, hi as int),
{
    let mut r: Vec<u8> = Vec::new();
    for i in lo..hi
        invariant
            hi <= v@.len(),
            r@ == v@.subrange(lo as int, i as int),
    {
        r.push(v[i]);
        assert(r@ == v@.subrange(lo as int, i as int + 1));
    }
    r
}

/// A copy of `v`.
pub fn copied(v: &Vec<u8>) -> (r: Vec<u8>)
    ensures
        r@ == v@,
{
    let r: Vec<u8> = slice(v, 0, v.len());
    assert(v@.subrange(0, v@.len() as int) == v@);
    r
}

/// Appends the bytes of `tail` to `v`.
pub fn extend(v: &mut Vec<u8>, tail: &[u8])
    ensures
        final(v)@ == old(v)@ + tail@,
{
    for i in 0..tail.len()
        invariant
            v@ == old(v)@ + tail@.take(i as int),
    {
        v.push(tail[i]);
        assert(v@ == old(v)@ + tail@.take(i as int + 1));
    }
    assert(tail@.take(tail@.len() as int) == tail@);
}

/// Whether `a` and `b` hold the same bytes.
pub fn same_bytes(a: &[u8], b: &[u8]) -> (r: bool)
    ensures
        r == (a@ == b@),
{
    if a.len() != b.len() {
        return false;
    }
    for i in 0..a.len()
        invariant
            a@.len() == b@.len(),
            a@.take(i as int) == b@.take(i as int),
    {
        if a[i] != b[i] {
            assert(a@[i as int] != b@[i as int]);
            return false;
        }
        assert(a@.take(i as int + 1) == a@.take(i as int).push(a@[i as int]));
        assert(b@.take(i as int + 1) == b@.take(i as int).push(b@[i as int]));
    }
    assert(a@.take(a@.len() as int) == a@);
    assert(b@.take(b@.len() as int) == b@);
    true
}

/// Whether `a` is listed no later than `b`.
fn bytes_leq(a: &Vec<u8>, b: &Vec<u8>) -> (r: bool)
    ensures
        r == lex_le(a@, b@, byte_lt()),
{
    let mut i: usize = 0;
    assert(a@.skip(0) == a@ && b@.skip(0) == b@);
    while i < a.len()
        invariant
            i <= a@.len(),
            i <= b@.len(),
            lex_le(a@, b@, byte_lt()) == lex_le(a@.skip(i as int), b@.skip(i as int), byte_lt()),
        decreases a.len() - i,
    {
        if i >= b.len() {
            return false;
        }
        let ghost sa = a@.skip(i as int);
        let ghost sb = b@.skip(i as int);
        assert(sa[0] == a@[i as int] && sb[0] == b@[i as int]);
        if a[i] < b[i] {
            assert(byte_lt()(sa[0], sb[0]));
            return true;
        }
        assert(!byte_lt()(sa[0], sb[0]));
        if b[i] < a[i] {
            return false;
        }
        assert(sa.drop_first() == a@.skip(i as int + 1));
        assert(sb.drop_first() == b@.skip(i as int + 1));
        i = i + 1;
    }
    true
}

/// Whether `name` is exactly `.`.
fn is_dot(name: &Vec<u8>) -> (r: bool)
    ensures
        r == (name@ == dot_name()),
{
    let r = name.len() == 1 && name[0] == 0x2e;
    assert(r ==> name@ =~= dot_name());
    r
}

/// Whether `name` is exactly `..`.
fn is_dot_dot(name: &Vec<u8>) -> (r: bool)
    ensures
        r == (name@ == dot_dot_name()),
{
    let r = name.len() == 2 && name[0] == 0x2e && name[1] == 0x2e;
    assert(r ==> name@ =~= dot_dot_name());
    r
}

/// The position of the last dot of `name` that has something before it.
fn find_ext_dot(name: &Vec<u8>) -> (r: Option<usize>)
    ensures
        match r {
            Some(i) => ext_dot(name@) == Some(i as int) && 0 < i < name@.len(),
            None => ext_dot(name@) is None,
        },
{
    let mut n: usize = name.len();
    assert(name@.take(name@.len() as int) == name@);
    while n > 1
        invariant
            n <= name@.len(),
            ext_dot(name@) == ext_dot(name@.take(n as int)),
        decreases n,
    {
        assert(name@.take(n as int).drop_last() == name@.take(n as int - 1));
        if name[n - 1] == 0x2e {
            return Some(n - 1);
        }
        n = n - 1;
    }
    None
}

/// What stands behind the last dot of `name`, if that is not its first byte.
pub fn ext_of(name: &Vec<u8>) -> (r: Option<Vec<u8>>)
    ensures
        match r {
            Some(e) => name_ext(name@) == Some(e@),
            None => name_ext(name@) is None,
        },
{
    let n: usize = name.len();
    match find_ext_dot(name) {
        Some(i) => {
            let e: Vec<u8> = slice(name, i + 1, n);
            assert(e@ =~= name@.skip(i as int + 1));
            Some(e)
        },
        None => None,
    }
}

/// `name` without its extension and the dot before it.
pub fn stem_of(name: &Vec<u8>) -> (r: Vec<u8>)
    ensures
        r@ == name_stem(name@),
{
    match find_ext_dot(name) {
        Some(i) => {
            let r: Vec<u8> = slice(name, 0, i);
            assert(r@ =~= name@.take(i as int));
            r
        },
        None => copied(name),
    }
}

// ---- components ----

impl Component {
    /// A copy of this component.
    pub fn copy(&self) -> (r: Component)
        ensures
            r@ == self@,
    {
        match self {
            Component::RootDir => Component::RootDir,
            Component::CurDir => Component::CurDir,
            Component::ParentDir => Component::ParentDir,
            Component::Normal(name) => Component::Normal(copied(name)),
        }
    }

    /// Whether this component is `other`.
    pub fn same(&self, other: &Component) -> (r: bool)
        ensures
            r == (self@ == other@),
    {
        match (self, other) {
            (Component::RootDir, Component::RootDir) => true,
            (Component::CurDir, Component::CurDir) => true,
            (Component::ParentDir, Component::ParentDir) => true,
            (Component::Normal(a), Component::Normal(b)) => same_bytes(
                a.as_slice(),
                b.as_slice(),
            ),
            _ => false,
        }
    }

    fn rank(&self) -> (r: u8)
        ensures
            r == part_rank(self@),
    {
        match self {
            Component::RootDir => 0,
            Component::CurDir => 1,
            Component::ParentDir => 2,
            Component::Normal(_) => 3,
        }
    }

    /// Whether this component is listed before `other`.
    fn before(&self, other: &Component) -> (r: bool)
        ensures
            r == part_lt()(self@, other@),
    {
        if self.rank() < other.rank() {
            return true;
        }
        match (self, other) {
            (Component::Normal(a), Component::Normal(b)) => {
                !same_bytes(a.as_slice(), b.as_slice()) && bytes_leq(a, b)
            },
            _ => false,
        }
    }

    /// The bytes that spell this component.
    fn bytes(&self) -> (r: Vec<u8>)
        ensures
            r@ == part_bytes(self@),
    {
        let mut r: Vec<u8> = Vec::new();
        match self {
            Component::RootDir => {},
            Component::CurDir => {
                r.push(0x2e);
            },
            Component::ParentDir => {
                r.push(0x2e);
                r.push(0x2e);
            },
            Component::Normal(name) => {
                r = copied(name);
            },
        }
        assert(r@ =~= part_bytes(self@));
        r
    }
}

/// The views of a list of components.
spec fn parts_of(v: Seq<Component>) -> Seq<Part> {
    Seq::new(v.len(), |i: int| v[i]@)
}

/// Adds what `piece` stands for to `parts`.
fn add_piece(parts: &mut Vec<Component>, piece: Vec<u8>, first: bool)
    ensures
        parts_of(final(parts)@) == with_piece(parts_of(old(parts)@), piece@, first),
{
    if piece.len() == 0 {
        return;
    }
    if is_dot(&piece) {
        if first {
            parts.push(Component::CurDir);
        }
    } else if is_dot_dot(&piece) {
        parts.push(Component::ParentDir);
    } else {
        parts.push(Component::Normal(piece));
    }
    assert(parts_of(parts@) =~= with_piece(parts_of(old(parts)@), piece@, first));
}

/// Copies of the components of `v` from `lo` up to `hi`.
fn copy_parts(v: &Vec<Component>, lo: usize, hi: usize) -> (r: Vec<Component>)
    requires
        lo <= hi <= v@.len(),
    ensures
        parts_of(r@) == parts_of(v@).subrange(lo as int, hi as int),
{
    let mut r: Vec<Component> = Vec::new();
    for i in lo..hi
        invariant
            hi <= v@.len(),
            parts_of(r@) == parts_of(v@).subrange(lo as int, i as int),
    {
        let ghost was = r@;
        r.push(v[i].copy());
        assert(parts_of(r@) =~= parts_of(was).push(v@[i as int]@));
        assert(parts_of(r@) =~= parts_of(v@).subrange(lo as int, i as int + 1));
    }
    r
}

impl Path {
    /// Paths are well-formed.
    #[verifier::type_invariant]
    pub open spec fn wf(self) -> bool {
        path_wf(self@)
    }

    /// The path of no components.
    pub fn empty() -> (r: Path)
        ensures
            r@ == Seq::<Part>::empty(),
    {
        let parts: Vec<Component> = Vec::new();
        assert(Path { parts }@ =~= Seq::<Part>::empty());
        Path { parts }
    }

    /// The path that `bytes` spell.
    pub fn parse(bytes: &[u8]) -> (r: Path)
        ensures
            r@ == parse(bytes@),
    {
        let mut parts: Vec<Component> = Vec::new();
        let rooted = bytes.len() > 0 && bytes[0] == 0x2f;
        let ghost head: Seq<Part> = if rooted {
            seq![Part::Root]
        } else {
            Seq::empty()
        };
        if rooted {
            parts.push(Component::RootDir);
        }
        let mut piece: Vec<u8> = Vec::new();
        let mut first = true;
        let ghost mut done: Seq<Seq<u8>> = Seq::empty();
        assert(bytes@.take(0) =~= Seq::<u8>::empty());
        assert(done.push(piece@) =~= pieces(bytes@.take(0)));
        assert(parts_of(parts@) =~= head + steps(done));
        for i in 0..bytes.len()
            invariant
                rooted == starts_at_root(bytes@),
                head == (if rooted { seq![Part::Root] } else { Seq::<Part>::empty() }),
                pieces(bytes@.take(i as int)) == done.push(piece@),
                parts_of(parts@) == head + steps(done),
                first == (done.len() == 0),
        {
            let b: u8 = bytes[i];
            assert(bytes@.take(i as int + 1).drop_last() == bytes@.take(i as int));
            if b == 0x2f {
                let ghost was = parts_of(parts@);
                let ghost p = piece@;
                add_piece(&mut parts, piece, first);
                proof {
                    let next = done.push(p);
                    assert(next.drop_last() =~= done);
                    assert(with_piece(was, p, first) =~= head + with_piece(steps(done), p, first));
                    done = next;
                }
                piece = Vec::new();
                first = false;
                assert(done.push(piece@) =~= pieces(bytes@.take(i as int + 1)));
            } else {
                let ghost p = piece@;
                piece.push(b);
                assert(done.push(p).drop_last() =~= done);
                assert(done.push(piece@) =~= pieces(bytes@.take(i as int + 1)));
            }
        }
        assert(bytes@.take(bytes@.len() as int) == bytes@);
        let ghost was = parts_of(parts@);
        let ghost p = piece@;
        add_piece(&mut parts, piece, first);
        proof {
            assert(done.push(p).drop_last() =~= done);
            assert(with_piece(was, p, first) =~= head + with_piece(steps(done), p, first));
            assert(parts_of(parts@) =~= parse(bytes@));
            lemma_parse_wf(bytes@);
        }
        let ghost q = parts_of(parts@);
        assert(Path { parts }@ =~= q);
        Path { parts }
    }

    /// The shortest spelling of the path.
    pub fn to_bytes(&self) -> (r: Vec<u8>)
        ensures
            r@ == render(self@),
    {
        let n: usize = self.parts.len();
        let mut r: Vec<u8> = Vec::new();
        if n == 0 {
            assert(r@ =~= render(self@));
            return r;
        }
        let rooted = self.parts[0].same(&Component::RootDir);
        if rooted {
            r.push(0x2f);
        } else {
            r = self.parts[0].bytes();
        }
        assert(self@[0] == self.parts@[0]@);
        assert(self@.take(1)[0] == self@[0]);
        assert(r@ =~= render(self@.take(1)));
        for i in 1..n
            invariant
                n == self.parts@.len(),
                rooted == (self@[0] is Root),
                r@ == render(self@.take(i as int)),
                rooted && i == 1 ==> r@ == seq![slash()],
        {
            let ghost was = r@;
            let tail: Vec<u8> = self.parts[i].bytes();
            if !(rooted && i == 1) {
                r.push(0x2f);
            }
            extend(&mut r, tail.as_slice());
            proof {
                let s = self@.take(i as int + 1);
                assert(s.drop_last() =~= self@.take(i as int));
                assert(s.last() == self.parts@[i as int]@);
                assert(s[0] == self@[0]);
                assert(r@ =~= render(s));
            }
        }
        assert(self@.take(n as int) =~= self@);
        r
    }

    /// This path as it is shown to a reader.
    pub fn display(&self) -> (r: String)
        ensures
            r@ == shown(self@),
    {
        lossy(self.to_bytes().as_slice())
    }

    /// The path without the components of `base`, if it begins with them.
    pub fn strip_prefix(&self, base: &Path) -> (r: Option<Path>)
        ensures
            match r {
                Some(p) => strip_prefix(self@, base@) == Some(p@),
                None => strip_prefix(self@, base@) is None,
            },
    {
        proof {
            use_type_invariant(self);
        }
        let n: usize = base.parts.len();
        if n > self.parts.len() {
            return None;
        }
        for i in 0..n
            invariant
                n == base@.len(),
                n <= self@.len(),
                forall|j: int| 0 <= j < i ==> base@[j] == self@[j],
        {
            if !self.parts[i].same(&base.parts[i]) {
                assert(self@[i as int] != base@[i as int]);
                return None;
            }
            assert(self@[i as int] == base@[i as int]);
        }
        let parts: Vec<Component> = copy_parts(&self.parts, n, self.parts.len());
        assert(parts_of(parts@) =~= self@.skip(n as int));
        assert(Path { parts }@ =~= parts_of(parts@));
        Some(Path { parts })
    }

    /// The path without its last component.
    pub fn parent(&self) -> (r: Option<Path>)
        ensures
            match r {
                Some(p) => parent(self@) == Some(p@),
                None => parent(self@) is None,
            },
    {
        proof {
            use_type_invariant(self);
        }
        let n: usize = self.parts.len();
        if n == 0 || self.parts[n - 1].same(&Component::RootDir) {
            return None;
        }
        let parts: Vec<Component> = copy_parts(&self.parts, 0, n - 1);
        assert(parts_of(parts@) =~= self@.drop_last());
        assert(Path { parts }@ =~= parts_of(parts@));
        Some(Path { parts })
    }

    /// The name at the end of the path.
    pub fn file_name(&self) -> (r: Option<Vec<u8>>)
        ensures
            match r {
                Some(name) => file_name(self@) == Some(name@),
                None => file_name(self@) is None,
            },
    {
        let n: usize = self.parts.len();
        if n == 0 {
            return None;
        }
        match &self.parts[n - 1] {
            Component::Normal(name) => Some(copied(name)),
            _ => None,
        }
    }

    /// The extension of the name at the end of the path.
    pub fn extension(&self) -> (r: Option<Vec<u8>>)
        ensures
            match r {
                Some(e) => extension(self@) == Some(e@),
                None => extension(self@) is None,
            },
    {
        match self.file_name() {
            Some(name) => ext_of(&name),
            None => None,
        }
    }

    /// The path with the extension of its last name taken off.
    pub fn without_ext(&self) -> (r: Path)
        ensures
            r@ == without_ext(self@),
    {
        proof {
            use_type_invariant(self);
        }
        let n: usize = self.parts.len();
        let mut parts: Vec<Component> = copy_parts(&self.parts, 0, n);
        assert(parts_of(parts@) =~= self@);
        match self.file_name() {
            Some(name) => {
                let stem: Vec<u8> = stem_of(&name);
                let _ = parts.pop();
                assert(parts_of(parts@) =~= self@.drop_last());
                add_piece(&mut parts, stem, n == 1);
                proof {
                    assert(self@[n as int - 1] == self@.last());
                    lemma_stem_wf(self@);
                }
            },
            None => {},
        }
        assert(Path { parts }@ =~= parts_of(parts@));
        Path { parts }
    }

    /// `other` as seen from this path.
    pub fn join(&self, other: &Path) -> (r: Path)
        ensures
            r@ == join(self@, other@),
    {
        proof {
            use_type_invariant(self);
            use_type_invariant(other);
        }
        let n: usize = other.parts.len();
        let absolute = n > 0 && other.parts[0].same(&Component::RootDir);
        assert(n > 0 ==> other@[0] == other.parts@[0]@);
        if absolute || self.parts.len() == 0 {
            return other.clone();
        }
        let start: usize = if n > 0 && other.parts[0].same(&Component::CurDir) {
            1
        } else {
            0
        };
        let mut parts: Vec<Component> = copy_parts(&self.parts, 0, self.parts.len());
        let mut tail: Vec<Component> = copy_parts(&other.parts, start, n);
        assert(parts_of(tail@) =~= without_cur(other@));
        assert(parts_of(parts@) =~= self@);
        let ghost a = parts@;
        let ghost b = tail@;
        parts.append(&mut tail);
        assert(parts_of(parts@) =~= parts_of(a) + parts_of(b));
        assert(Path { parts }@ =~= parts_of(parts@));
        Path { parts }
    }

    /// The path that leads to the entry `name` of this directory.
    pub fn join_name(&self, name: Vec<u8>) -> (r: Path)
        requires
            name_ok(name@),
        ensures
            r@ == self@.push(Part::Normal(name@)),
    {
        proof {
            use_type_invariant(self);
        }
        let mut parts: Vec<Component> = copy_parts(&self.parts, 0, self.parts.len());
        let ghost was = parts@;
        assert(parts_of(was) =~= self@);
        parts.push(Component::Normal(name));
        assert(parts_of(parts@) =~= parts_of(was).push(Part::Normal(name@)));
        assert(parts_of(parts@) =~= self@.push(Part::Normal(name@)));
        assert(Path { parts }@ =~= parts_of(parts@));
        Path { parts }
    }

    /// Whether the two are the same path.
    pub fn same(&self, other: &Path) -> (r: bool)
        ensures
            r == (self@ == other@),
    {
        assert(self@.len() == self.parts@.len() && other@.len() == other.parts@.len());
        if self.parts.len() != other.parts.len() {
            return false;
        }
        for i in 0..self.parts.len()
            invariant
                self@.len() == self.parts@.len(),
                self.parts@.len() == other.parts@.len(),
                forall|j: int| 0 <= j < i ==> self@[j] == other@[j],
        {
            if !self.parts[i].same(&other.parts[i]) {
                assert(self@[i as int] != other@[i as int]);
                return false;
            }
            assert(self@[i as int] == other@[i as int]);
        }
        assert(self@ =~= other@);
        true
    }
}

/// Taking the extension off keeps a path well-formed.
proof fn lemma_stem_wf(s: Seq<Part>)
    requires
        path_wf(s),
        file_name(s) is Some,
    ensures
        path_wf(without_ext(s)),
{
    assert(s[s.len() - 1] == s.last());
    let name = file_name(s)->0;
    let stem = name_stem(name);
    lemma_ext_dot(name);
    assert(!stem.contains(slash())) by {
        assert forall|i: int| 0 <= i < stem.len() implies stem[i] != slash() by {
            assert(name.contains(name[i]));
        }
    }
    let r = without_ext(s);
    assert forall|i: int| 0 <= i < r.len() implies match #[trigger] r[i] {
        Part::Root => i == 0,
        Part::Cur => i == 0,
        Part::Parent => true,
        Part::Normal(n) => name_ok(n),
    } by {
        if i < s.len() - 1 {
            assert(r[i] == s[i]);
        }
    }
}

/// The dot before an extension stands inside the name, and is its last dot.
pub proof fn lemma_ext_dot(name: Seq<u8>)
    ensures
        ext_dot(name) matches Some(i) ==> 0 < i < name.len() && name[i] == dot() && forall|j: int|
            i < j < name.len() ==> name[j] != dot(),
        ext_dot(name) is None ==> forall|j: int| 0 < j < name.len() ==> name[j] != dot(),
    decreases name.len(),
{
    if name.len() > 1 && name.last() != dot() {
        lemma_ext_dot(name.drop_last());
        assert forall|j: int| 0 < j < name.len() - 1 implies name[j] == name.drop_last()[j] by {}
    }
}

impl Clone for Path {
    /// A copy of this path.
    fn clone(&self) -> (r: Path)
        ensures
            r@ == self@,
    {
        proof {
            use_type_invariant(self);
        }
        let parts: Vec<Component> = copy_parts(&self.parts, 0, self.parts.len());
        assert(parts_of(parts@) =~= self@);
        assert(Path { parts }@ =~= parts_of(parts@));
        Path { parts }
    }
}

impl Ranked for Path {
    open spec fn le(a: Seq<Part>, b: Seq<Part>) -> bool {
        path_le(a, b)
    }

    proof fn le_total(a: Seq<Part>, b: Seq<Part>) {
        lemma_part_order();
        lex_total(a, b, part_lt());
    }

    proof fn le_transitive(a: Seq<Part>, b: Seq<Part>, c: Seq<Part>) {
        lemma_part_order();
        lex_transitive(a, b, c, part_lt());
    }

    fn leq(&self, other: &Self) -> bool {
        let mut i: usize = 0;
        assert(self@.skip(0) == self@ && other@.skip(0) == other@);
        while i < self.parts.len()
            invariant
                self@.len() == self.parts@.len(),
                other@.len() == other.parts@.len(),
                i <= self@.len(),
                i <= other@.len(),
                path_le(self@, other@) == path_le(self@.skip(i as int), other@.skip(i as int)),
            decreases self.parts.len() - i,
        {
            if i >= other.parts.len() {
                return false;
            }
            let ghost sa = self@.skip(i as int);
            let ghost sb = other@.skip(i as int);
            assert(sa[0] == self.parts@[i as int]@ && sb[0] == other.parts@[i as int]@);
            if self.parts[i].before(&other.parts[i]) {
                return true;
            }
            if !self.parts[i].same(&other.parts[i]) {
                return false;
            }
            assert(sa.drop_first() == self@.skip(i as int + 1));
            assert(sb.drop_first() == other@.skip(i as int + 1));
            i = i + 1;
        }
        true
    }
}

impl Key for Path {
    proof fn le_antisymmetric(a: Seq<Part>, b: Seq<Part>) {
        lemma_part_order();
        lex_antisymmetric(a, b, part_lt());
    }
}

// ---- laws of paths ----

/// A path is read name by name: a separator and a name add one component,
/// `..` adds a step up, and a separator at the end, a doubled one or a `.` add
/// nothing. A separator in front makes the path absolute, and a `.` counts only
/// there.
pub proof fn law_paths_are_read_name_by_name(x: Seq<u8>, name: Seq<u8>)
    requires
        x.len() > 0,
        name_ok(name),
    ensures
        parse(Seq::empty()) == Seq::<Part>::empty(),
        parse(name) == seq![Part::Normal(name)],
        parse(seq![0x2fu8]) == seq![Part::Root],
        parse(seq![0x2fu8] + name) == seq![Part::Root, Part::Normal(name)],
        parse(x.push(0x2f) + name) == parse(x).push(Part::Normal(name)),
        parse(x.push(0x2f)) == parse(x),
        parse(x.push(0x2f).push(0x2f) + name) == parse(x).push(Part::Normal(name)),
        parse(x.push(0x2f).push(0x2e)) == parse(x),
        parse(x.push(0x2f).push(0x2e).push(0x2e)) == parse(x).push(Part::Parent),
        parse(seq![0x2eu8]) == seq![Part::Cur],
        parse(seq![0x2eu8, 0x2eu8]) == seq![Part::Parent],
        parse(seq![0x2fu8, 0x2eu8]) == seq![Part::Root],
        parse(seq![0x2fu8, 0x2eu8, 0x2eu8]) == seq![Part::Root, Part::Parent],
{
    let e = Seq::<u8>::empty();
    lemma_pieces_clean(x);
    law_parse_render(Seq::empty());
    law_parse_render(seq![Part::Normal(name)]);
    law_parse_render(seq![Part::Root]);
    law_parse_render(seq![Part::Root, Part::Normal(name)]);
    law_parse_render(seq![Part::Cur]);
    law_parse_render(seq![Part::Parent]);
    law_parse_render(seq![Part::Root, Part::Parent]);
    assert(render(seq![Part::Root, Part::Parent]) =~= seq![0x2fu8, 0x2eu8, 0x2eu8]);
    assert(render(seq![Part::Cur]) =~= seq![0x2eu8]);
    assert(render(seq![Part::Parent]) =~= seq![0x2eu8, 0x2eu8]);
    assert(render(Seq::<Part>::empty()) =~= e);
    assert(render(seq![Part::Root]) =~= seq![0x2fu8]);
    assert(render(seq![Part::Root, Part::Normal(name)]) =~= seq![0x2fu8] + name);
    lemma_read_more(x, name);
    lemma_read_more(x, e);
    assert(x.push(slash()) + e =~= x.push(slash()));
    lemma_read_more(x.push(slash()), name);
    let one = dot_name();
    let two = dot_dot_name();
    assert(!one.contains(slash()));
    assert(!two.contains(slash()));
    lemma_read_more(x, one);
    lemma_read_more(x, two);
    assert(x.push(slash()) + one =~= x.push(0x2f).push(0x2e));
    assert(x.push(slash()) + two =~= x.push(0x2f).push(0x2e).push(0x2e));
    assert(one[0] == dot() && one.len() == 1 && two.len() == 2);
    assert(one != two);
    lemma_pieces_extend(e, one);
    assert(e.push(slash()) + one =~= seq![0x2fu8, 0x2eu8]);
    assert(pieces(e) =~= seq![e]);
    assert(seq![e].push(one).drop_last() =~= seq![e]);
    assert(seq![e].drop_last() =~= Seq::<Seq<u8>>::empty());
    assert(parse(seq![0x2fu8, 0x2eu8]) =~= seq![Part::Root]) by {
        reveal_with_fuel(steps, 3);
    }
}

/// What a separator and one more piece add to what has been read.
proof fn lemma_read_more(x: Seq<u8>, y: Seq<u8>)
    requires
        x.len() > 0,
        !y.contains(slash()),
    ensures
        parse(x.push(slash()) + y) == with_piece(parse(x), y, false),
{
    lemma_pieces_nonempty(x);
    lemma_pieces_extend(x, y);
    let b = x.push(slash()) + y;
    assert(b[0] == x[0]);
    assert(pieces(b).drop_last() =~= pieces(x));
    let s = steps(pieces(x));
    if starts_at_root(x) {
        assert(seq![Part::Root] + with_piece(s, y, false) =~= with_piece(
            seq![Part::Root] + s,
            y,
            false,
        ));
    }
}

/// A path is written with one separator between each two names, and none
/// behind the root but its own.
pub proof fn law_paths_are_written_name_by_name(s: Seq<Part>, name: Seq<u8>)
    requires
        path_wf(s),
        name_ok(name),
    ensures
        s.len() == 0 ==> render(s.push(Part::Normal(name))) == name,
        s == seq![Part::Root] ==> render(s.push(Part::Normal(name))) == seq![0x2fu8] + name,
        s.len() > 0 && s != seq![Part::Root] ==> render(s.push(Part::Normal(name))) == render(
            s,
        ).push(0x2f) + name,
{
    let t = s.push(Part::Normal(name));
    assert(t.drop_last() =~= s);
    if s.len() > 0 {
        assert(t[0] == s[0]);
        if s.len() == 1 && s[0] is Root {
            assert(s =~= seq![Part::Root]);
        }
    }
}

/// An extension is what follows the last dot of a name, unless that dot is the
/// first byte; the stem is what stands before the dot.
pub proof fn law_extension_follows_the_last_dot(stem: Seq<u8>, tail: Seq<u8>, plain: Seq<u8>)
    requires
        stem.len() > 0,
        forall|i: int| 0 <= i < tail.len() ==> #[trigger] tail[i] != 0x2e,
        forall|i: int| 0 < i < plain.len() ==> #[trigger] plain[i] != 0x2e,
    ensures
        name_ext(stem.push(0x2e) + tail) == Some(tail),
        name_stem(stem.push(0x2e) + tail) == stem,
        name_ext(plain) is None,
        name_stem(plain) == plain,
{
    let full = stem.push(dot()) + tail;
    lemma_ext_dot(full);
    lemma_ext_dot(plain);
    assert(full[stem.len() as int] == dot());
    assert forall|j: int| stem.len() < j < full.len() implies full[j] != dot() by {
        assert(tail[j - stem.len() - 1] == full[j]);
    }
    assert(ext_dot(full) == Some(stem.len() as int));
    assert(full.take(stem.len() as int) =~= stem);
    assert(full.skip(stem.len() as int + 1) =~= tail);
}

/// A file lies in its directory under its name, and taking its extension off
/// changes only the name.
pub proof fn law_files_in_directories(dir: Seq<Part>, stem: Seq<u8>, tail: Seq<u8>)
    requires
        name_ok(stem),
        forall|i: int| 0 <= i < tail.len() ==> #[trigger] tail[i] != 0x2e,
    ensures
        ({
            let name = stem.push(0x2e) + tail;
            let file = dir.push(Part::Normal(name));
            &&& parent(file) == Some(dir)
            &&& file_name(file) == Some(name)
            &&& extension(file) == Some(tail)
            &&& without_ext(file) == dir.push(Part::Normal(stem))
        }),
{
    law_extension_follows_the_last_dot(stem, tail, Seq::empty());
    let file = dir.push(Part::Normal(stem.push(0x2e) + tail));
    assert(file.drop_last() =~= dir);
}

/// A relative path that is joined to another is found again behind it, and an
/// absolute one stands for itself.
pub proof fn law_join_and_strip(a: Seq<Part>, b: Seq<Part>)
    ensures
        b.len() > 0 && b[0] is Root ==> join(a, b) == b,
        b.len() > 0 && b[0] is Cur && a.len() > 0 ==> join(a, b) == a + b.skip(1),
        (b.len() == 0 || !(b[0] is Root || b[0] is Cur)) ==> join(a, b) == a + b && strip_prefix(
            join(a, b),
            a,
        ) == Some(b),
        strip_prefix(b, a) is Some <==> a.len() <= b.len() && forall|i: int|
            0 <= i < a.len() ==> #[trigger] a[i] == b[i],
        strip_prefix(b, a) matches Some(rest) ==> b == a + rest,
{
    if b.len() > 0 {
        assert(b.drop_first() =~= b.skip(1));
    }
    assert((a + b).skip(a.len() as int) =~= b);
    assert((a + b).take(a.len() as int) =~= a);
    if a.len() == 0 {
        assert(a + b =~= b);
    }
    if a.len() <= b.len() && forall|i: int| 0 <= i < a.len() ==> #[trigger] a[i] == b[i] {
        assert(b.take(a.len() as int) =~= a);
    }
    if a.is_prefix_of(b) {
        assert forall|i: int| 0 <= i < a.len() implies #[trigger] a[i] == b[i] by {}
        assert(b =~= a + b.skip(a.len() as int));
    }
}

proof fn lemma_common_front<T>(p: Seq<T>, u: Seq<T>, v: Seq<T>, lt: spec_fn(T, T) -> bool)
    requires
        strict_total(lt),
    ensures
        lex_le(p + u, p + v, lt) == lex_le(u, v, lt),
    decreases p.len(),
{
    if p.len() == 0 {
        assert(p + u =~= u);
        assert(p + v =~= v);
    } else {
        lemma_common_front(p.drop_first(), u, v, lt);
        assert((p + u).drop_first() =~= p.drop_first() + u);
        assert((p + v).drop_first() =~= p.drop_first() + v);
        assert(!lt(p[0], p[0]));
    }
}

/// Paths are listed directory by directory: a directory comes before what lies
/// in it, and where two paths part, the bytes of the two names decide.
pub proof fn law_path_order(
    dir: Seq<Part>,
    a: Seq<u8>,
    b: Seq<u8>,
    x: Seq<Part>,
    y: Seq<Part>,
)
    requires
        a != b,
    ensures
        path_le(dir, dir + x),
        path_le(dir.push(Part::Normal(a)) + x, dir.push(Part::Normal(b)) + y)
            <==> a.is_prefix_of(b) || exists|k: int|
            0 <= k < a.len() && k < b.len() && a.take(k) == b.take(k) && #[trigger] a[k] < b[k],
{
    lemma_part_order();
    lemma_byte_order();
    let lt = part_lt();
    let none = Seq::<Part>::empty();
    lemma_common_front(dir, none, x, lt);
    assert(dir + none =~= dir);
    let u = seq![Part::Normal(a)] + x;
    let v = seq![Part::Normal(b)] + y;
    assert(dir.push(Part::Normal(a)) + x =~= dir + u);
    assert(dir.push(Part::Normal(b)) + y =~= dir + v);
    lemma_common_front(dir, u, v, lt);
    assert(u[0] == Part::Normal(a) && v[0] == Part::Normal(b));
    assert(lex_le(u, v, lt) == lt(u[0], v[0]));
    law_lexicographic_order(a, b, byte_lt());
    if exists|k: int| differs_at(a, b, byte_lt(), k) {
        let k = choose|k: int| differs_at(a, b, byte_lt(), k);
        assert(a[k] < b[k]);
    }
    if exists|k: int|
        0 <= k < a.len() && k < b.len() && a.take(k) == b.take(k) && #[trigger] a[k] < b[k] {
        let k = choose|k: int|
            0 <= k < a.len() && k < b.len() && a.take(k) == b.take(k) && #[trigger] a[k] < b[k];
        assert(differs_at(a, b, byte_lt(), k));
    }
}

/// Among the components of a path the root comes first, then `.`, then `..`,
/// and then every name.
pub proof fn law_component_order(name: Seq<u8>)
    ensures
        part_lt()(Part::Root, Part::Cur),
        part_lt()(Part::Cur, Part::Parent),
        part_lt()(Part::Parent, Part::Normal(name)),
        !part_lt()(Part::Normal(name), Part::Parent),
        !part_lt()(Part::Normal(name), Part::Normal(name)),
{
}

/// A path is shown whole, as it is spelled; only bytes that are no valid text
/// are replaced.
pub proof fn law_paths_are_shown_whole(s: Seq<Part>, name: Seq<u8>)
    requires
        path_wf(s),
        name_ok(name),
        s.len() > 0,
        s != seq![Part::Root],
    ensures
        shown(s.push(Part::Normal(name))) == lossy_text(render(s).push(0x2f) + name),
        shown(seq![Part::Normal(name)]) == lossy_text(name),
{
    law_paths_are_written_name_by_name(s, name);
    law_paths_are_written_name_by_name(Seq::empty(), name);
    assert(Seq::<Part>::empty().push(Part::Normal(name)) =~= seq![Part::Normal(name)]);
}

}
