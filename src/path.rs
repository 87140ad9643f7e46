use vstd::prelude::*;
use vstd::string::StringSliceAdditionalSpecFns;

verus! {

/// The byte that separates the components of a path.
pub const SEPARATOR: u8 = 47;

/// The byte `.`.
pub const DOT: u8 = 46;

/// The component that stands for the root directory of an absolute path.
pub open spec fn root_component() -> Seq<u8> {
    seq![SEPARATOR]
}

/// The component that stands for a leading `.` (the current directory).
pub open spec fn cur_component() -> Seq<u8> {
    seq![DOT]
}

/// A name: a non-empty component without separators that is not `.`.
pub open spec fn is_name(c: Seq<u8>) -> bool {
    &&& c.len() > 0
    &&& c != cur_component()
    &&& forall|i: int| 0 <= i < c.len() ==> c[i] != SEPARATOR
}

/// The root and a leading `.` may only stand first.
pub open spec fn is_lead(c: Seq<u8>) -> bool {
    c == root_component() || c == cur_component()
}

/// The components of a path as they are read from its bytes: names, where the first may
/// also be the root or `.`.
pub open spec fn wf_components(cs: Seq<Seq<u8>>) -> bool {
    forall|i: int| 0 <= i < cs.len() ==> (is_name(#[trigger] cs[i]) || (i == 0 && is_lead(cs[i])))
}

/// What a path starts with before its names: the root, a leading `.`, or nothing.
pub open spec fn lead_of(s: Seq<u8>) -> Seq<Seq<u8>> {
    if s.len() > 0 && s[0] == SEPARATOR {
        seq![root_component()]
    } else if s.len() > 0 && s[0] == DOT && (s.len() == 1 || s[1] == SEPARATOR) {
        seq![cur_component()]
    } else {
        seq![]
    }
}

/// Adds a segment found between separators to the names, unless it is empty or `.`.
pub open spec fn keep(names: Seq<Seq<u8>>, seg: Seq<u8>) -> Seq<Seq<u8>> {
    if seg.len() == 0 || seg == cur_component() {
        names
    } else {
        names.push(seg)
    }
}

/// Splits bytes at each separator: the names completed so far, and the segment after the
/// last separator.
pub open spec fn split_names(s: Seq<u8>) -> (Seq<Seq<u8>>, Seq<u8>)
    decreases s.len(),
{
    if s.len() == 0 {
        (seq![], seq![])
    } else {
        let (names, seg) = split_names(s.drop_last());
        if s.last() == SEPARATOR {
            (keep(names, seg), seq![])
        } else {
            (names, seg.push(s.last()))
        }
    }
}

/// The components of the path written as the bytes `s`.
pub open spec fn parse(s: Seq<u8>) -> Seq<Seq<u8>> {
    lead_of(s) + keep(split_names(s).0, split_names(s).1)
}

/// Components joined by separators.
pub open spec fn join_with_separators(cs: Seq<Seq<u8>>) -> Seq<u8>
    decreases cs.len(),
{
    if cs.len() == 0 {
        seq![]
    } else if cs.len() == 1 {
        cs[0]
    } else {
        join_with_separators(cs.drop_last()) + seq![SEPARATOR] + cs.last()
    }
}

/// The bytes that write a path: after the root no further separator is needed.
pub open spec fn render(cs: Seq<Seq<u8>>) -> Seq<u8> {
    if cs.len() > 0 && cs[0] == root_component() {
        root_component() + join_with_separators(cs.drop_first())
    } else {
        join_with_separators(cs)
    }
}

/// The directory that holds a path: none for the empty path and for the root.
pub open spec fn parent_of(cs: Seq<Seq<u8>>) -> Option<Seq<Seq<u8>>> {
    if cs.len() == 0 || cs.last() == root_component() {
        None
    } else {
        Some(cs.drop_last())
    }
}

/// Whether `base` is a prefix of `cs`, component by component.
pub open spec fn has_prefix(cs: Seq<Seq<u8>>, base: Seq<Seq<u8>>) -> bool {
    base.len() <= cs.len() && cs.subrange(0, base.len() as int) == base
}

/// What remains of `cs` after the components of `base`, when `base` is a prefix of it.
pub open spec fn strip_prefix_of(cs: Seq<Seq<u8>>, base: Seq<Seq<u8>>) -> Option<Seq<Seq<u8>>> {
    if has_prefix(cs, base) {
        Some(cs.subrange(base.len() as int, cs.len() as int))
    } else {
        None
    }
}

/// `b` appended to `a`: an absolute `b` replaces `a`, and a leading `.` of `b` is dropped
/// once it stands after other components.
pub open spec fn join_of(a: Seq<Seq<u8>>, b: Seq<Seq<u8>>) -> Seq<Seq<u8>> {
    if b.len() > 0 && b[0] == root_component() {
        b
    } else if a.len() == 0 {
        b
    } else if b.len() > 0 && b[0] == cur_component() {
        a + b.drop_first()
    } else {
        a + b
    }
}

/// The views of a sequence of byte vectors.
pub open spec fn views(v: Seq<Vec<u8>>) -> Seq<Seq<u8>> {
    v.map_values(|c: Vec<u8>| c@)
}

/// A path of the file system, held as its components (the root, a leading `.`, then names).
/// Components are compared byte for byte, as Unix file systems do.
#[derive(Debug)]
pub struct FsPath {
    comps: Vec<Vec<u8>>,
}

impl View for FsPath {
    type V = Seq<Seq<u8>>;

    closed spec fn view(&self) -> Seq<Seq<u8>> {
        views(self.comps@)
    }
}

impl FsPath {
    #[verifier::type_invariant]
    spec fn well_formed(self) -> bool {
        wf_components(views(self.comps@))
    }

    /// A copy of this path.
    pub fn duplicate(&self) -> (r: FsPath)
        ensures
            r@ == self@,
    {
        proof {
            use_type_invariant(self);
        }
        let comps = copy_range(&self.comps, 0, self.comps.len());
        assert(views(comps@) =~= self@);
        FsPath { comps }
    }

    /// Reads a path from a string.
    pub fn new(s: &str) -> (r: FsPath)
        ensures
            r@ == parse(s.spec_bytes()),
    {
        FsPath::from_bytes(s.as_bytes())
    }

    /// The empty path.
    pub fn empty() -> (r: FsPath)
        ensures
            r@ == Seq::<Seq<u8>>::empty(),
    {
        let comps: Vec<Vec<u8>> = Vec::new();
        assert(views(comps@) =~= Seq::<Seq<u8>>::empty());
        FsPath { comps }
    }

    /// The number of components.
    pub fn len(&self) -> (r: usize)
        ensures
            r == self@.len(),
    {
        self.comps.len()
    }

    /// The bytes of the component at `i`.
    pub fn component(&self, i: usize) -> (r: Vec<u8>)
        requires
            i < self@.len(),
        ensures
            r@ == self@[i as int],
    {
        copy_bytes(&self.comps[i])
    }

    /// Whether the path starts at the root.
    pub fn is_absolute(&self) -> (r: bool)
        ensures
            r == (self@.len() > 0 && self@[0] == root_component()),
    {
        self.comps.len() > 0 && self.comps[0].len() == 1 && self.comps[0][0] == SEPARATOR && {
            assert(self.comps@[0]@ =~= root_component());
            true
        }
    }

    /// The bytes that write the path.
    pub fn to_bytes(&self) -> (r: Vec<u8>)
        ensures
            r@ == render(self@),
    {
        let mut out: Vec<u8> = Vec::new();
        let n = self.comps.len();
        if n == 0 {
            return out;
        }
        let absolute = self.is_absolute();
        let start: usize = if absolute { 1 } else { 0 };
        if absolute {
            out.push(SEPARATOR);
        }
        let ghost cs = self@;
        let ghost rest = cs.subrange(start as int, n as int);
        assert(absolute ==> rest =~= cs.drop_first());
        assert(!absolute ==> rest =~= cs);
        let ghost head: Seq<u8> = if absolute { root_component() } else { seq![] };
        assert(out@ =~= head);
        let mut i: usize = start;
        while i < n
            invariant
                start <= i <= n,
                n == cs.len(),
                cs == self@,
                rest == cs.subrange(start as int, n as int),
                i > start ==> out@ == head + join_with_separators(
                    cs.subrange(start as int, i as int),
                ),
                i == start ==> out@ == head,
            decreases n - i,
        {
            let ghost before = cs.subrange(start as int, i as int);
            let ghost after = cs.subrange(start as int, i + 1);
            assert(after.drop_last() =~= before);
            if i > start {
                out.push(SEPARATOR);
            }
            push_bytes(&mut out, &self.comps[i]);
            if i == start {
                assert(after.len() == 1);
                assert(out@ =~= head + join_with_separators(after));
            } else {
                assert(out@ =~= head + join_with_separators(after));
            }
            i = i + 1;
        }
        if start == n {
            assert(rest.len() == 0);
            assert(out@ =~= head + join_with_separators(rest));
        }
        assert(out@ =~= render(cs));
        out
    }

    /// Whether two paths have the same components.
    pub fn same_as(&self, other: &FsPath) -> (r: bool)
        ensures
            r == (self@ == other@),
    {
        if self.comps.len() != other.comps.len() {
            return false;
        }
        let mut i: usize = 0;
        while i < self.comps.len()
            invariant
                self@.len() == other@.len(),
                0 <= i <= self@.len(),
                self@.subrange(0, i as int) == other@.subrange(0, i as int),
            decreases self@.len() - i,
        {
            if !bytes_equal(&self.comps[i], &other.comps[i]) {
                assert(self@[i as int] != other@[i as int]);
                return false;
            }
            assert(self@.subrange(0, i + 1) =~= self@.subrange(0, i as int).push(self@[i as int]));
            assert(other@.subrange(0, i + 1) =~= other@.subrange(0, i as int).push(
                other@[i as int],
            ));
            i = i + 1;
        }
        assert(self@ =~= self@.subrange(0, i as int));
        assert(other@ =~= other@.subrange(0, i as int));
        true
    }

    /// The directory that holds this path: `None` for the empty path and for the root.
    pub fn parent(&self) -> (r: Option<FsPath>)
        ensures
            r matches Some(p) ==> parent_of(self@) == Some(p@),
            r is None ==> parent_of(self@) is None,
    {
        proof {
            use_type_invariant(self);
        }
        let n = self.comps.len();
        if n == 0 {
            return None;
        }
        let last = &self.comps[n - 1];
        if last.len() == 1 && last[0] == SEPARATOR {
            assert(last@ =~= root_component());
            return None;
        }
        assert(self@.last() != root_component()) by {
            if last@.len() == 1 {
                assert(last@[0] != SEPARATOR);
            }
        }
        let comps = copy_range(&self.comps, 0, n - 1);
        assert(views(comps@) =~= self@.drop_last());
        Some(FsPath { comps })
    }

    /// What remains of this path after the components of `base`: `None` when `base` is
    /// not a prefix of it.
    pub fn strip_prefix(&self, base: &FsPath) -> (r: Option<FsPath>)
        ensures
            r matches Some(p) ==> strip_prefix_of(self@, base@) == Some(p@),
            r is None ==> strip_prefix_of(self@, base@) is None,
    {
        proof {
            use_type_invariant(self);
            use_type_invariant(base);
        }
        let n = self.comps.len();
        let m = base.comps.len();
        if m > n {
            return None;
        }
        let mut i: usize = 0;
        while i < m
            invariant
                m <= n,
                n == self@.len(),
                m == base@.len(),
                0 <= i <= m,
                self@.subrange(0, i as int) == base@.subrange(0, i as int),
            decreases m - i,
        {
            if !bytes_equal(&self.comps[i], &base.comps[i]) {
                assert(self@.subrange(0, m as int)[i as int] != base@[i as int]);
                return None;
            }
            assert(self@.subrange(0, i + 1) =~= self@.subrange(0, i as int).push(self@[i as int]));
            assert(base@.subrange(0, i + 1) =~= base@.subrange(0, i as int).push(base@[i as int]));
            i = i + 1;
        }
        assert(base@ =~= base@.subrange(0, m as int));
        let comps = copy_range(&self.comps, m, n);
        let ghost rest = self@.subrange(m as int, n as int);
        assert forall|k: int| 0 <= k < rest.len() implies (is_name(#[trigger] rest[k]) || (k == 0
            && is_lead(rest[k]))) by {
            assert(rest[k] == self@[k + m]);
        }
        Some(FsPath { comps })
    }

    /// `other` appended to this path: an absolute `other` replaces it, and a leading `.`
    /// of `other` is dropped after other components.
    pub fn join(&self, other: &FsPath) -> (r: FsPath)
        ensures
            r@ == join_of(self@, other@),
    {
        proof {
            use_type_invariant(self);
            use_type_invariant(other);
        }
        let n = self.comps.len();
        let m = other.comps.len();
        if other.is_absolute() || n == 0 {
            let comps = copy_range(&other.comps, 0, m);
            assert(views(comps@) =~= other@);
            return FsPath { comps };
        }
        let skip: usize = if m > 0 && other.comps[0].len() == 1 && other.comps[0][0] == DOT {
            assert(other@[0] =~= cur_component());
            1
        } else {
            assert(m > 0 ==> other@[0] != cur_component()) by {
                if m > 0 && other@[0].len() == 1 {
                    assert(other@[0][0] != DOT);
                }
            }
            0
        };
        let mut comps = copy_range(&self.comps, 0, n);
        let mut tail = copy_range(&other.comps, skip, m);
        let ghost c0 = comps@;
        let ghost t0 = tail@;
        comps.append(&mut tail);
        let ghost a = self@;
        let ghost b = other@;
        assert(comps@ == c0 + t0);
        assert(views(c0) =~= a.subrange(0, n as int));
        assert(a.subrange(0, n as int) =~= a);
        assert(views(c0 + t0) =~= views(c0) + views(t0));
        assert(views(comps@) =~= a + b.subrange(skip as int, m as int));
        if skip == 1 {
            assert(b.subrange(1, m as int) =~= b.drop_first());
        } else {
            assert(b.subrange(0, m as int) =~= b);
        }
        let r = FsPath { comps };
        assert forall|k: int| 0 <= k < r@.len() implies (is_name(#[trigger] r@[k]) || (k == 0
            && is_lead(r@[k]))) by {
            if k >= a.len() {
                assert(r@[k] == b[k - a.len() + skip]);
            } else {
                assert(r@[k] == a[k]);
            }
        }
        r
    }

    /// Reads a path from its bytes.
    pub fn from_bytes(b: &[u8]) -> (r: FsPath)
        ensures
            r@ == parse(b@),
    {
        let mut names: Vec<Vec<u8>> = Vec::new();
        let mut seg: Vec<u8> = Vec::new();
        let mut i: usize = 0;
        while i < b.len()
            invariant
                0 <= i <= b@.len(),
                split_names(b@.subrange(0, i as int)) == (views(names@), seg@),
            decreases b@.len() - i,
        {
            assert(b@.subrange(0, i + 1).drop_last() =~= b@.subrange(0, i as int));
            if b[i] == SEPARATOR {
                push_kept(&mut names, seg);
                seg = Vec::new();
            } else {
                seg.push(b[i]);
            }
            i = i + 1;
        }
        assert(b@.subrange(0, b@.len() as int) =~= b@);
        let mut comps: Vec<Vec<u8>> = Vec::new();
        if b.len() > 0 && b[0] == SEPARATOR {
            comps.push(single(SEPARATOR));
        } else if b.len() > 0 && b[0] == DOT && (b.len() == 1 || b[1] == SEPARATOR) {
            comps.push(single(DOT));
        }
        assert(views(comps@) =~= lead_of(b@));
        push_kept(&mut names, seg);
        let ghost lead = views(comps@);
        comps.append(&mut names);
        assert(views(comps@) =~= lead + keep(split_names(b@).0, split_names(b@).1));
        proof {
            lemma_parse_wf(b@);
        }
        FsPath { comps }
    }
}

impl Clone for FsPath {
    fn clone(&self) -> (r: FsPath)
        ensures
            r@ == self@,
    {
        self.duplicate()
    }
}

/// Whether two paths stand in the same directory: `None` where either has no parent.
pub open spec fn same_dir(a: Seq<Seq<u8>>, b: Seq<Seq<u8>>) -> Option<bool> {
    match (parent_of(a), parent_of(b)) {
        (Some(x), Some(y)) => Some(x == y),
        _ => None,
    }
}

/// Whether the two paths have the same parent; `None` where either has none.
pub fn try_in_same_dir(path1: &FsPath, path2: &FsPath) -> (r: Option<bool>)
    ensures
        r == same_dir(path1@, path2@),
{
    let parent1 = match path1.parent() {
        Some(p) => p,
        None => return None,
    };
    let parent2 = match path2.parent() {
        Some(p) => p,
        None => return None,
    };
    Some(parent1.same_as(&parent2))
}

/// Whether the two paths have the same parent; false where either has none (the root,
/// the empty path).
pub fn in_same_dir(path1: &FsPath, path2: &FsPath) -> (r: bool)
    ensures
        r == (same_dir(path1@, path2@) == Some(true)),
{
    match try_in_same_dir(path1, path2) {
        Some(b) => b,
        None => false,
    }
}

/// A copy of a sequence of bytes.
fn copy_bytes(v: &Vec<u8>) -> (r: Vec<u8>)
    ensures
        r@ == v@,
{
    let r = v.clone();
    assert(r@ =~= v@);
    r
}

/// A copy of the components `cs[from..to]`.
fn copy_range(cs: &Vec<Vec<u8>>, from: usize, to: usize) -> (r: Vec<Vec<u8>>)
    requires
        from <= to <= cs@.len(),
    ensures
        views(r@) == views(cs@).subrange(from as int, to as int),
{
    let mut r: Vec<Vec<u8>> = Vec::new();
    let mut i: usize = from;
    while i < to
        invariant
            from <= i <= to <= cs@.len(),
            views(r@) == views(cs@).subrange(from as int, i as int),
        decreases to - i,
    {
        let c = copy_bytes(&cs[i]);
        let ghost before = r@;
        r.push(c);
        assert(r@ == before.push(c));
        assert(views(r@) =~= views(before).push(cs@[i as int]@));
        assert(views(r@) =~= views(cs@).subrange(from as int, i + 1));
        i = i + 1;
    }
    r
}

/// Whether two byte sequences are equal.
fn bytes_equal(a: &Vec<u8>, b: &Vec<u8>) -> (r: bool)
    ensures
        r == (a@ == b@),
{
    if a.len() != b.len() {
        return false;
    }
    let mut i: usize = 0;
    while i < a.len()
        invariant
            a@.len() == b@.len(),
            0 <= i <= a@.len(),
            a@.subrange(0, i as int) == b@.subrange(0, i as int),
        decreases a@.len() - i,
    {
        if a[i] != b[i] {
            assert(a@[i as int] != b@[i as int]);
            return false;
        }
        assert(a@.subrange(0, i + 1) =~= a@.subrange(0, i as int).push(a@[i as int]));
        assert(b@.subrange(0, i + 1) =~= b@.subrange(0, i as int).push(b@[i as int]));
        i = i + 1;
    }
    assert(a@ =~= a@.subrange(0, i as int));
    assert(b@ =~= b@.subrange(0, i as int));
    true
}

/// Appends bytes to a buffer.
pub(crate) fn push_bytes(out: &mut Vec<u8>, b: &Vec<u8>)
    ensures
        final(out)@ == old(out)@ + b@,
{
    let mut i: usize = 0;
    while i < b.len()
        invariant
            0 <= i <= b@.len(),
            out@ == old(out)@ + b@.subrange(0, i as int),
        decreases b@.len() - i,
    {
        out.push(b[i]);
        assert(out@ =~= old(out)@ + b@.subrange(0, i + 1));
        i = i + 1;
    }
    assert(b@.subrange(0, b@.len() as int) =~= b@);
}

/// A component of one byte.
fn single(c: u8) -> (r: Vec<u8>)
    ensures
        r@ == seq![c],
{
    let mut r: Vec<u8> = Vec::new();
    r.push(c);
    assert(r@ =~= seq![c]);
    r
}

/// Appends a finished segment to the names, unless it is empty or `.`.
fn push_kept(names: &mut Vec<Vec<u8>>, seg: Vec<u8>)
    ensures
        views(final(names)@) == keep(views(old(names)@), seg@),
{
    let dot = seg.len() == 1 && seg[0] == DOT;
    if seg.len() == 1 {
        assert(seg@ == cur_component() <==> seg@ =~= cur_component());
    }
    if seg.len() == 0 || dot {
        assert(seg@.len() == 0 || seg@ =~= cur_component());
    } else {
        assert(seg@ != cur_component());
        names.push(seg);
        assert(views(names@) =~= views(old(names)@).push(seg@));
    }
}

/// Each segment that `split_names` completes, and the one still open, holds no separator.
proof fn lemma_split_names(s: Seq<u8>)
    ensures
        forall|i: int| 0 <= i < split_names(s).0.len() ==> is_name(#[trigger] split_names(s).0[i]),
        forall|i: int| 0 <= i < split_names(s).1.len() ==> split_names(s).1[i] != SEPARATOR,
    decreases s.len(),
{
    if s.len() > 0 {
        lemma_split_names(s.drop_last());
        let (names, seg) = split_names(s.drop_last());
        if s.last() != SEPARATOR {
            assert forall|i: int| 0 <= i < seg.push(s.last()).len() implies seg.push(s.last())[i]
                != SEPARATOR by {
                if i < seg.len() {
                    assert(seg.push(s.last())[i] == seg[i]);
                }
            }
        }
    }
}

/// What `parse` reads is well formed.
pub proof fn lemma_parse_wf(s: Seq<u8>)
    ensures
        wf_components(parse(s)),
{
    lemma_split_names(s);
    let (names, seg) = split_names(s);
    let kept = keep(names, seg);
    assert forall|i: int| 0 <= i < kept.len() implies is_name(#[trigger] kept[i]) by {
        if i == names.len() {
            assert(kept[i] == seg);
        }
    }
    let p = parse(s);
    let l = lead_of(s);
    assert forall|i: int| 0 <= i < p.len() implies (is_name(#[trigger] p[i]) || (i == 0 && is_lead(p[i]))) by {
        if i >= l.len() {
            assert(p[i] == kept[i - l.len()]);
        }
    }
}

/// Splitting bytes that end in a piece without separators leaves that piece open.
proof fn lemma_split_no_separator(a: Seq<u8>, c: Seq<u8>)
    requires
        forall|i: int| 0 <= i < c.len() ==> c[i] != SEPARATOR,
    ensures
        split_names(a + c) == (split_names(a).0, split_names(a).1 + c),
    decreases c.len(),
{
    if c.len() == 0 {
        assert(a + c =~= a);
        assert(split_names(a).1 + c =~= split_names(a).1);
    } else {
        let init = c.drop_last();
        lemma_split_no_separator(a, init);
        assert((a + c).drop_last() =~= a + init);
        assert(split_names(a).1 + init + seq![c.last()] =~= split_names(a).1 + c);
        assert((split_names(a).1 + init).push(c.last()) =~= split_names(a).1 + c);
    }
}

/// Splitting a prefix that ends at a separator, then names joined by separators, completes
/// all names but the last, which stays open.
proof fn lemma_split_joined(prefix: Seq<u8>, names: Seq<Seq<u8>>, cs: Seq<Seq<u8>>)
    requires
        split_names(prefix) == (names, Seq::<u8>::empty()),
        cs.len() > 0,
        forall|i: int| 0 <= i < cs.len() ==> is_name(#[trigger] cs[i]),
    ensures
        split_names(prefix + join_with_separators(cs)) == (names + cs.drop_last(), cs.last()),
    decreases cs.len(),
{
    if cs.len() == 1 {
        lemma_split_no_separator(prefix, cs[0]);
        assert(Seq::<u8>::empty() + cs[0] =~= cs[0]);
        assert(names + cs.drop_last() =~= names);
    } else {
        let init = cs.drop_last();
        assert forall|i: int| 0 <= i < init.len() implies is_name(#[trigger] init[i]) by {
            assert(init[i] == cs[i]);
        }
        lemma_split_joined(prefix, names, init);
        let before = prefix + join_with_separators(init);
        let with_sep = before.push(SEPARATOR);
        assert(with_sep.drop_last() =~= before);
        assert(is_name(init.last()));
        assert(split_names(with_sep) == (names + init, Seq::<u8>::empty())) by {
            assert((names + init.drop_last()).push(init.last()) =~= names + init);
        }
        assert(is_name(cs.last()));
        lemma_split_no_separator(with_sep, cs.last());
        assert(prefix + join_with_separators(cs) =~= with_sep + cs.last());
        assert(Seq::<u8>::empty() + cs.last() =~= cs.last());
    }
}

/// The bytes of names joined by separators start with the first name.
proof fn lemma_join_starts_with_first(cs: Seq<Seq<u8>>)
    requires
        cs.len() > 0,
    ensures
        join_with_separators(cs).len() >= cs[0].len(),
        forall|i: int| 0 <= i < cs[0].len() ==> join_with_separators(cs)[i] == cs[0][i],
    decreases cs.len(),
{
    if cs.len() > 1 {
        lemma_join_starts_with_first(cs.drop_last());
        assert(cs.drop_last()[0] == cs[0]);
    }
}

/// Reading back the bytes that write a path gives the same path.
pub proof fn lemma_parse_render(cs: Seq<Seq<u8>>)
    requires
        wf_components(cs),
    ensures
        parse(render(cs)) == cs,
{
    let empty = Seq::<u8>::empty();
    let none = Seq::<Seq<u8>>::empty();
    if cs.len() == 0 {
        assert(render(cs) =~= empty);
        assert(parse(empty) =~= cs);
        return;
    }
    let lead = cs[0] == root_component() || cs[0] == cur_component();
    let rest = if lead { cs.drop_first() } else { cs };
    assert forall|i: int| 0 <= i < rest.len() implies is_name(#[trigger] rest[i]) by {
        if lead {
            assert(rest[i] == cs[i + 1]);
        }
    }
    let s = render(cs);
    if lead {
        let prefix = cs[0].push(SEPARATOR);
        let one = seq![cs[0][0]];
        assert(cs[0] =~= one);
        assert(split_names(empty) == (none, empty));
        assert(one.drop_last() =~= empty);
        if cs[0] == root_component() {
            assert(split_names(one) == (keep(none, empty), empty));
        } else {
            assert(split_names(one) == (none, empty.push(DOT)));
            assert(empty.push(DOT) =~= one);
        }
        assert(split_names(prefix) == (none, empty)) by {
            assert(prefix.drop_last() =~= cs[0]);
        }
        if rest.len() == 0 {
            assert(cs =~= seq![cs[0]]);
            if cs[0] == root_component() {
                assert(s =~= root_component());
            } else {
                assert(s =~= cur_component());
                assert(keep(none, one) == none);
            }
            assert(lead_of(s) =~= seq![cs[0]]);
            assert(parse(s) =~= cs);
        } else {
            lemma_split_joined(prefix, none, rest);
            if cs[0] == root_component() {
                assert(s =~= root_component() + join_with_separators(rest));
                lemma_split_joined(root_component(), none, rest);
                assert(lead_of(s) =~= seq![root_component()]);
                assert(split_names(s) == (rest.drop_last(), rest.last())) by {
                    assert(split_names(root_component()) == (none, empty)) by {
                        assert(root_component().drop_last() =~= empty);
                    }
                    assert(none + rest.drop_last() =~= rest.drop_last());
                }
            } else {
                assert(cs =~= seq![cs[0]] + rest);
                lemma_join_cons(cs[0], rest);
                assert(s =~= prefix + join_with_separators(rest));
                assert(s[0] == DOT && s[1] == SEPARATOR);
                assert(lead_of(s) =~= seq![cur_component()]);
                assert(none + rest.drop_last() =~= rest.drop_last());
            }
            assert(rest.drop_last().push(rest.last()) =~= rest);
            assert(parse(s) =~= seq![cs[0]] + rest);
            assert(seq![cs[0]] + rest =~= cs);
        }
    } else {
        assert(s == join_with_separators(cs));
        lemma_split_joined(empty, none, cs);
        assert(empty + s =~= s);
        assert(none + cs.drop_last() =~= cs.drop_last());
        assert(cs.drop_last().push(cs.last()) =~= cs);
        lemma_join_starts_with_first(cs);
        assert(is_name(cs[0]));
        assert(lead_of(s) =~= none) by {
            if s.len() > 0 && s[0] == DOT && (s.len() == 1 || s[1] == SEPARATOR) {
                assert(cs[0][0] == DOT);
                if cs[0].len() == 1 {
                    assert(cs[0] =~= cur_component());
                } else {
                    assert(s[1] == cs[0][1]);
                }
            }
        }
        assert(parse(s) =~= cs);
    }
}

/// Names joined by separators after a first component: that component, a separator, then
/// the rest.
proof fn lemma_join_cons(first: Seq<u8>, rest: Seq<Seq<u8>>)
    requires
        rest.len() > 0,
    ensures
        join_with_separators(seq![first] + rest) == first.push(SEPARATOR) + join_with_separators(
            rest,
        ),
    decreases rest.len(),
{
    let cs = seq![first] + rest;
    assert(cs.len() == rest.len() + 1);
    assert(cs.last() == rest.last());
    if rest.len() == 1 {
        assert(cs.drop_last() =~= seq![first]);
        assert(join_with_separators(cs.drop_last()) == first);
        assert(join_with_separators(rest) == rest[0]);
        assert(join_with_separators(cs) == first + seq![SEPARATOR] + rest[0]);
        assert(first.push(SEPARATOR) + rest[0] =~= first + seq![SEPARATOR] + rest[0]);
    } else {
        lemma_join_cons(first, rest.drop_last());
        assert(cs.drop_last() =~= seq![first] + rest.drop_last());
        assert(join_with_separators(cs) == join_with_separators(cs.drop_last()) + seq![SEPARATOR]
            + cs.last());
        assert(first.push(SEPARATOR) + join_with_separators(rest) =~= first.push(SEPARATOR)
            + join_with_separators(rest.drop_last()) + seq![SEPARATOR] + rest.last());
    }
}

} // verus!
