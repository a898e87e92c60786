//! The control-group handle and its path algebra.
//!
//! Paths are byte strings, exactly as the kernel sees them. A handle's path
//! is always absolute: it starts with the root marker `/`. Composition with
//! relative fragments, resolution of the parent group, and the mapping to the
//! location under the cgroup filesystem mount point are all pure functions of
//! the path bytes.

use crate::text::{
    bytes_eq, index_of_byte, lemma_index_of_byte, names, slice_to_vec, DOT, SLASH,
};
use vstd::prelude::*;

verus! {

/// Holds when `s` is an absolute path: nonempty and starting with `/`.
pub open spec fn is_absolute(s: Seq<u8>) -> bool {
    s.len() > 0 && s[0] == SLASH
}

/// A control group that may or may not exist on disk, identified by an
/// absolute path inside the cgroup hierarchy.
#[derive(Debug, Clone)]
pub struct CGroup {
    path: Vec<u8>,
}

impl View for CGroup {
    type V = Seq<u8>;

    closed spec fn view(&self) -> Seq<u8> {
        self.path@
    }
}

impl CGroup {
    /// Holds for every handle this module hands out: the path is absolute.
    pub open spec fn wf(&self) -> bool {
        is_absolute(self@)
    }

    /// Creates a [`CGroup`] from a path relative to the cgroup file system.
    pub fn from_cgroup_path(path: Vec<u8>) -> (r: CGroup)
        requires
            is_absolute(path@),
        ensures
            r@ == path@,
            r.wf(),
    {
        CGroup { path }
    }

    /// Returns this [`CGroup`] as a path relative to the cgroup file system.
    pub fn as_cgroup_path(&self) -> (r: &Vec<u8>)
        ensures
            r@ == self@,
    {
        &self.path
    }

    /// Says whether this handle satisfies its invariant, for callers outside
    /// the verified world that need to check before handing a value back in.
    pub fn is_wf(&self) -> (r: bool)
        ensures
            r == self.wf(),
    {
        self.path.len() > 0 && self.path[0] == SLASH
    }

    /// Composes a path fragment onto this handle and says whether the group
    /// it names changed.
    ///
    /// An absolute fragment replaces the path wholesale; any other fragment
    /// is appended after a separator. The result says whether the composed
    /// path names a different group than before, comparing paths by their
    /// normalized components — so a fragment that normalizes to the current
    /// path (`.`, the empty fragment, `./`, or an absolute fragment equal to
    /// the path up to separators and `.` components) is a no-op that reports
    /// no change. Callers rely on that report to skip a redundant
    /// self-classification when the requested group is already current.
    pub fn append(&mut self, fragment: &[u8]) -> (changed: bool)
        requires
            old(self).wf(),
        ensures
            final(self).wf(),
            changed == (path_components(join(old(self)@, fragment@)) != path_components(
                old(self)@,
            )),
            changed ==> final(self)@ == join(old(self)@, fragment@),
            !changed ==> final(self)@ == old(self)@,
    {
        if fragment.len() > 0 && fragment[0] == SLASH {
            let mine = path_components_of(self.path.as_slice());
            let theirs = path_components_of(fragment);
            let same = name_lists_eq(&mine, &theirs);
            if same {
                false
            } else {
                self.path = slice_to_vec(fragment);
                true
            }
        } else {
            let frag_components = path_components_of(fragment);
            if frag_components.len() == 0 {
                proof {
                    lemma_path_components_join(self.path@, fragment@);
                    assert(names(frag_components@).len() == 0);
                    assert(path_components(join(self.path@, fragment@)) =~= path_components(
                        self.path@,
                    ));
                }
                false
            } else {
                let ghost base = self.path@;
                if self.path[self.path.len() - 1] != SLASH {
                    self.path.push(SLASH);
                }
                let ghost with_sep = self.path@;
                let mut i: usize = 0;
                while i < fragment.len()
                    invariant
                        i <= fragment.len(),
                        self.path@ == with_sep + fragment@.subrange(0, i as int),
                    decreases fragment.len() - i,
                {
                    let b = fragment[i];
                    self.path.push(b);
                    proof {
                        assert(self.path@ =~= with_sep + fragment@.subrange(0, i + 1));
                    }
                    i += 1;
                }
                proof {
                    assert(fragment@.subrange(0, fragment@.len() as int) =~= fragment@);
                    if base.last() == SLASH {
                        assert(self.path@ =~= join(base, fragment@));
                    } else {
                        assert(with_sep =~= base + seq![SLASH]);
                        assert(self.path@ =~= join(base, fragment@));
                    }
                    lemma_path_components_join(base, fragment@);
                    assert(path_components(join(base, fragment@)).len() > path_components(
                        base,
                    ).len());
                }
                true
            }
        }
    }

    /// Returns the parent of this [`CGroup`] if there is one; the hierarchy
    /// root — any path without a real component — has none. The parent is
    /// the group whose components are this group's with the last removed,
    /// in canonical form, so separator runs, trailing separators and `.`
    /// components never make a group its own parent.
    pub fn parent(&self) -> (r: Option<CGroup>)
        requires
            self.wf(),
        ensures
            r is None <==> path_components(self@).len() == 0,
            r matches Some(p) ==> p@ == parent_of(self@) && p.wf(),
    {
        let components = path_components_of(self.path.as_slice());
        if components.len() == 0 {
            return None;
        }
        let p = assemble_prefix(&components, components.len() - 1);
        proof {
            assert(names(components@).take(components@.len() - 1) =~= path_components(
                self@,
            ).drop_last());
        }
        Some(CGroup::from_cgroup_path(p))
    }

    /// Maps this handle to its location under the cgroup filesystem mount
    /// point. The mapping is pure: the mount root is fixed and the path is
    /// appended to it. Computing it never fails.
    pub fn cgroupfs_path(&self) -> (r: Vec<u8>)
        requires
            self.wf(),
        ensures
            r@ == mount_root() + self@,
    {
        let mut r = mount_root_vec();
        let mut i: usize = 0;
        while i < self.path.len()
            invariant
                i <= self.path@.len(),
                r@ == mount_root() + self.path@.subrange(0, i as int),
            decreases self.path@.len() - i,
        {
            let b = self.path[i];
            r.push(b);
            proof {
                assert(r@ =~= mount_root() + self.path@.subrange(0, i + 1));
            }
            i += 1;
        }
        proof {
            assert(self.path@.subrange(0, self.path@.len() as int) =~= self.path@);
        }
        r
    }
}

/// The composition of a path fragment onto a base path: an absolute fragment
/// replaces the base, any other fragment is appended after a separator (no
/// separator is added when the base already ends with one).
pub open spec fn join(base: Seq<u8>, fragment: Seq<u8>) -> Seq<u8> {
    if is_absolute(fragment) {
        fragment
    } else if base.len() > 0 && base.last() == SLASH {
        base + fragment
    } else {
        base + seq![SLASH] + fragment
    }
}

/// The normalized components of a slash-separated path: the chunks between
/// separators, with empty chunks and `.` chunks elided. Two paths name the
/// same group exactly when their components agree; this is how generic
/// path-join normalization reads a path.
pub open spec fn path_components(s: Seq<u8>) -> Seq<Seq<u8>>
    decreases s.len(),
    via path_components_decreases
{
    if s.len() == 0 {
        Seq::empty()
    } else if s[0] == SLASH {
        path_components(s.drop_first())
    } else {
        let k = index_of_byte(s, SLASH);
        let chunk = s.take(k);
        if chunk == seq![DOT] {
            path_components(s.skip(k))
        } else {
            seq![chunk] + path_components(s.skip(k))
        }
    }
}

#[via_fn]
proof fn path_components_decreases(s: Seq<u8>) {
    if s.len() > 0 && s[0] != SLASH {
        lemma_index_of_byte(s, SLASH);
    }
}

/// Components distribute over a separator: the components of `a + "/" + b`
/// are those of `a` followed by those of `b`.
proof fn lemma_components_across_sep(a: Seq<u8>, b: Seq<u8>)
    ensures
        path_components(a + seq![SLASH] + b) == path_components(a) + path_components(b),
    decreases a.len(),
{
    let x = a + seq![SLASH] + b;
    if a.len() == 0 {
        assert(x =~= seq![SLASH] + b);
        assert(x[0] == SLASH);
        assert(x.drop_first() =~= b);
        assert(path_components(a) + path_components(b) =~= path_components(b));
    } else if a[0] == SLASH {
        assert(x.drop_first() =~= a.drop_first() + seq![SLASH] + b);
        lemma_components_across_sep(a.drop_first(), b);
        assert(path_components(x) == path_components(a) + path_components(b));
    } else {
        lemma_index_of_byte(a, SLASH);
        let ka = index_of_byte(a, SLASH);
        if ka < a.len() {
            crate::text::lemma_index_of_byte_at(x, SLASH, ka);
            assert(x.take(ka) =~= a.take(ka));
            assert(x.skip(ka) =~= a.skip(ka) + seq![SLASH] + b);
            lemma_components_across_sep(a.skip(ka), b);
            if a.take(ka) == seq![DOT] {
                assert(path_components(x) == path_components(a) + path_components(b));
            } else {
                assert(path_components(x) =~= path_components(a) + path_components(b));
            }
        } else {
            // `a` is separator-free: the first separator of `x` is the
            // inserted one, so the first chunk of `x` is `a` itself.
            assert forall|m: int| 0 <= m < a.len() implies x[m] != SLASH by {
                assert(x[m] == a[m]);
            }
            assert(x[a.len() as int] == SLASH);
            crate::text::lemma_index_of_byte_at(x, SLASH, a.len() as int);
            let k = index_of_byte(x, SLASH);
            assert(x.take(k) =~= a);
            assert(x.skip(k) =~= seq![SLASH] + b);
            assert((seq![SLASH] + b)[0] == SLASH);
            assert((seq![SLASH] + b).drop_first() =~= b);
            assert(path_components(x.skip(k)) == path_components(b));
            assert(a.take(ka) =~= a);
            assert(a.skip(ka) =~= Seq::<u8>::empty());
            assert(path_components(Seq::<u8>::empty()) =~= Seq::<Seq<u8>>::empty());
            if a == seq![DOT] {
                assert(path_components(x) == path_components(b));
                assert(path_components(a) =~= Seq::<Seq<u8>>::empty());
                assert(path_components(a) + path_components(b) =~= path_components(b));
            } else {
                assert(path_components(x) == seq![a] + path_components(b));
                assert(path_components(a) =~= seq![a]);
                assert(seq![a] + path_components(b) =~= path_components(a) + path_components(
                    b,
                ));
            }
        }
    }
}

/// Joining a relative fragment adds exactly the fragment's components.
proof fn lemma_path_components_join(base: Seq<u8>, fragment: Seq<u8>)
    requires
        is_absolute(base),
        !is_absolute(fragment),
    ensures
        path_components(join(base, fragment)) == path_components(base) + path_components(
            fragment,
        ),
{
    if base.last() == SLASH {
        let a = base.drop_last();
        assert(base =~= a + seq![SLASH]);
        assert(join(base, fragment) =~= a + seq![SLASH] + fragment);
        lemma_components_across_sep(a, fragment);
        assert(base =~= a + seq![SLASH] + Seq::<u8>::empty());
        lemma_components_across_sep(a, Seq::<u8>::empty());
        assert(path_components(base) + path_components(Seq::<u8>::empty()) =~= path_components(
            base,
        ));
        assert(path_components(base) == path_components(a));
    } else {
        assert(join(base, fragment) == base + seq![SLASH] + fragment);
        lemma_components_across_sep(base, fragment);
    }
}

/// Lists the normalized components of a path.
pub(crate) fn path_components_of(s: &[u8]) -> (r: Vec<Vec<u8>>)
    ensures
        names(r@) == path_components(s@),
{
    let mut r: Vec<Vec<u8>> = Vec::new();
    proof {
        assert(names(r@) =~= Seq::<Seq<u8>>::empty());
        assert(s@.skip(0) =~= s@);
    }
    let mut i: usize = 0;
    while i < s.len()
        invariant
            i <= s@.len(),
            path_components(s@) == names(r@) + path_components(s@.skip(i as int)),
        decreases s@.len() - i,
    {
        if s[i] == SLASH {
            proof {
                assert(s@.skip(i as int).drop_first() =~= s@.skip(i + 1));
            }
            i += 1;
        } else {
            let start = i;
            let mut chunk: Vec<u8> = Vec::new();
            while i < s.len() && s[i] != SLASH
                invariant
                    start <= i <= s@.len(),
                    chunk@ == s@.subrange(start as int, i as int),
                    forall|m: int| start <= m < i ==> s@[m] != SLASH,
                decreases s@.len() - i,
            {
                let b = s[i];
                chunk.push(b);
                proof {
                    assert(chunk@ =~= s@.subrange(start as int, i + 1));
                }
                i += 1;
            }
            let ghost rest = s@.skip(start as int);
            proof {
                assert forall|m: int| 0 <= m < i - start implies rest[m] != SLASH by {
                    assert(rest[m] == s@[m + start]);
                }
                if i < s@.len() {
                    assert(rest[i - start] == s@[i as int]);
                }
                crate::text::lemma_index_of_byte_at(rest, SLASH, i - start);
                assert(rest.take(i - start) =~= s@.subrange(start as int, i as int));
                assert(rest.skip(i - start) =~= s@.skip(i as int));
            }
            if chunk.len() == 1 && chunk[0] == DOT {
                proof {
                    assert(chunk@ =~= seq![DOT]);
                    assert(path_components(rest) == path_components(s@.skip(i as int)));
                }
            } else {
                let ghost prev = names(r@);
                proof {
                    if chunk@ == seq![DOT] {
                        assert(chunk@.len() == 1 && chunk@[0] == DOT);
                    }
                }
                r.push(chunk);
                proof {
                    assert(names(r@) =~= prev.push(s@.subrange(start as int, i as int)));
                    assert(names(r@) + path_components(s@.skip(i as int)) =~= prev
                        + path_components(rest));
                }
            }
        }
    }
    proof {
        assert(path_components(s@.skip(s@.len() as int)) =~= Seq::<Seq<u8>>::empty());
        assert(names(r@) + Seq::<Seq<u8>>::empty() =~= names(r@));
    }
    r
}

/// Builds the canonical byte form of the first `n` components of `list`.
fn assemble_prefix(list: &Vec<Vec<u8>>, n: usize) -> (r: Vec<u8>)
    requires
        n <= list@.len(),
    ensures
        r@ == assemble_path(names(list@).take(n as int)),
        is_absolute(r@),
{
    proof {
        lemma_assemble_absolute(names(list@).take(n as int));
    }
    if n == 0 {
        let mut r: Vec<u8> = Vec::new();
        r.push(SLASH);
        proof {
            assert(names(list@).take(0) =~= Seq::<Seq<u8>>::empty());
            assert(r@ =~= assemble_path(Seq::<Seq<u8>>::empty()));
        }
        return r;
    }
    let mut r: Vec<u8> = Vec::new();
    let mut j: usize = 0;
    while j < n
        invariant
            j <= n <= list@.len(),
            j == 0 ==> r@ == Seq::<u8>::empty(),
            j >= 1 ==> r@ == assemble_path(names(list@).take(j as int)),
        decreases n - j,
    {
        let ghost prev = r@;
        r.push(SLASH);
        let comp = &list[j];
        let mut b: usize = 0;
        while b < comp.len()
            invariant
                b <= comp@.len(),
                comp@ == names(list@)[j as int],
                r@ == prev + seq![SLASH] + comp@.subrange(0, b as int),
            decreases comp@.len() - b,
        {
            let byte = comp[b];
            r.push(byte);
            proof {
                assert(r@ =~= prev + seq![SLASH] + comp@.subrange(0, b + 1));
            }
            b += 1;
        }
        proof {
            let cs = names(list@);
            assert(comp@.subrange(0, comp@.len() as int) =~= comp@);
            assert(r@ == prev + seq![SLASH] + cs[j as int]);
            if j == 0 {
                assert(r@ =~= seq![SLASH] + cs[0]);
                assert(cs.take(1)[0] == cs[0]);
                assert(r@ =~= assemble_path(cs.take(1)));
            } else {
                assert(cs.take(j + 1).drop_last() =~= cs.take(j as int));
                assert(cs.take(j + 1).last() == cs[j as int]);
                assert(r@ =~= assemble_path(cs.take(j + 1)));
            }
        }
        j += 1;
    }
    r
}

/// Compares two lists of byte strings element by element.
fn name_lists_eq(a: &Vec<Vec<u8>>, b: &Vec<Vec<u8>>) -> (r: bool)
    ensures
        r == (names(a@) == names(b@)),
{
    if a.len() != b.len() {
        proof {
            assert(names(a@).len() != names(b@).len());
        }
        return false;
    }
    let mut i: usize = 0;
    while i < a.len()
        invariant
            i <= a@.len(),
            a@.len() == b@.len(),
            forall|m: int| 0 <= m < i ==> names(a@)[m] == names(b@)[m],
        decreases a@.len() - i,
    {
        if !bytes_eq(a[i].as_slice(), b[i].as_slice()) {
            proof {
                assert(names(a@)[i as int] != names(b@)[i as int]);
            }
            return false;
        }
        i += 1;
    }
    proof {
        assert(names(a@) =~= names(b@));
    }
    true
}

/// The canonical byte form of a component list: the root alone, or the
/// components each preceded by one separator.
pub open spec fn assemble_path(components: Seq<Seq<u8>>) -> Seq<u8>
    decreases components.len(),
{
    if components.len() == 0 {
        seq![SLASH]
    } else if components.len() == 1 {
        seq![SLASH] + components[0]
    } else {
        assemble_path(components.drop_last()) + seq![SLASH] + components.last()
    }
}

/// The parent group's path: the canonical form of the path's components
/// with the last one removed. Separator runs, trailing separators and `.`
/// components are read as generic path normalization reads them, so a
/// group is never its own parent. Meaningful for a group that has a
/// component; the root has no parent.
pub open spec fn parent_of(s: Seq<u8>) -> Seq<u8> {
    assemble_path(path_components(s).drop_last())
}

/// The byte length of a component list's canonical form, one separator per
/// component.
pub open spec fn assembled_len(components: Seq<Seq<u8>>) -> int
    decreases components.len(),
{
    if components.len() == 0 {
        0
    } else {
        assembled_len(components.drop_last()) + 1 + components.last().len()
    }
}

/// The fixed mount point of the cgroup filesystem, `/sys/fs/cgroup`.
pub open spec fn mount_root() -> Seq<u8> {
    seq![47u8, 115, 121, 115, 47, 102, 115, 47, 99, 103, 114, 111, 117, 112]
}

/// Builds the mount point `/sys/fs/cgroup` as bytes.
fn mount_root_vec() -> (r: Vec<u8>)
    ensures
        r@ == mount_root(),
{
    let mut r: Vec<u8> = Vec::new();
    r.push(47);  // /
    r.push(115);  // s
    r.push(121);  // y
    r.push(115);  // s
    r.push(47);  // /
    r.push(102);  // f
    r.push(115);  // s
    r.push(47);  // /
    r.push(99);  // c
    r.push(103);  // g
    r.push(114);  // r
    r.push(111);  // o
    r.push(117);  // u
    r.push(112);  // p
    proof {
        assert(r@ =~= mount_root());
    }
    r
}

/// A canonical path is absolute.
proof fn lemma_assemble_absolute(components: Seq<Seq<u8>>)
    ensures
        is_absolute(assemble_path(components)),
    decreases components.len(),
{
    if components.len() > 1 {
        lemma_assemble_absolute(components.drop_last());
    }
}

/// The canonical form of a nonempty component list has the assembled
/// length; the empty list assembles to the root alone.
proof fn lemma_assemble_len(components: Seq<Seq<u8>>)
    ensures
        components.len() == 0 ==> assemble_path(components).len() == 1,
        components.len() > 0 ==> assemble_path(components).len() == assembled_len(components),
    decreases components.len(),
{
    if components.len() == 1 {
        assert(components.drop_last() =~= Seq::<Seq<u8>>::empty());
        assert(assembled_len(Seq::<Seq<u8>>::empty()) == 0);
    } else if components.len() > 1 {
        lemma_assemble_len(components.drop_last());
    }
}

/// Assembled lengths are never negative.
proof fn lemma_assembled_len_nonneg(components: Seq<Seq<u8>>)
    ensures
        assembled_len(components) >= 0,
    decreases components.len(),
{
    if components.len() > 0 {
        lemma_assembled_len_nonneg(components.drop_last());
    }
}

/// Assembled lengths add over concatenation.
proof fn lemma_assembled_len_add(a: Seq<Seq<u8>>, b: Seq<Seq<u8>>)
    ensures
        assembled_len(a + b) == assembled_len(a) + assembled_len(b),
    decreases b.len(),
{
    if b.len() == 0 {
        assert(a + b =~= a);
    } else {
        lemma_assembled_len_add(a, b.drop_last());
        assert((a + b).drop_last() =~= a + b.drop_last());
        assert((a + b).last() == b.last());
    }
}

/// Every component of a path is nonempty.
proof fn lemma_components_nonempty(s: Seq<u8>)
    ensures
        forall|i: int|
            0 <= i < path_components(s).len() ==> (#[trigger] path_components(s)[i]).len() > 0,
    decreases s.len(),
{
    if s.len() == 0 {
    } else if s[0] == SLASH {
        lemma_components_nonempty(s.drop_first());
        assert forall|i: int|
            0 <= i < path_components(s).len() implies (#[trigger] path_components(s)[
            i
        ]).len() > 0 by {
            assert(path_components(s)[i] == path_components(s.drop_first())[i]);
        }
    } else {
        lemma_index_of_byte(s, SLASH);
        let k = index_of_byte(s, SLASH);
        lemma_components_nonempty(s.skip(k));
        assert forall|i: int|
            0 <= i < path_components(s).len() implies (#[trigger] path_components(s)[
            i
        ]).len() > 0 by {
            if s.take(k) == seq![DOT] {
                assert(path_components(s)[i] == path_components(s.skip(k))[i]);
            } else if i == 0 {
                assert(path_components(s)[0] == s.take(k));
            } else {
                assert(path_components(s)[i] == path_components(s.skip(k))[i - 1]);
            }
        }
    }
}

/// The canonical form of a path's components never outgrows the path
/// itself: each component is preceded by at least one separator in the
/// path, and the path may hold more (runs, trailing separators, `.`
/// components).
proof fn lemma_components_len_bound(s: Seq<u8>)
    ensures
        assembled_len(path_components(s)) <= s.len() + if s.len() > 0 && s[0] != SLASH {
            1int
        } else {
            0int
        },
    decreases s.len(),
{
    if s.len() == 0 {
    } else if s[0] == SLASH {
        lemma_components_len_bound(s.drop_first());
    } else {
        lemma_index_of_byte(s, SLASH);
        let k = index_of_byte(s, SLASH);
        let rest = s.skip(k);
        lemma_components_len_bound(rest);
        let chunk = s.take(k);
        if chunk == seq![DOT] {
        } else {
            lemma_assembled_len_add(seq![chunk], path_components(rest));
            assert(seq![chunk].drop_last() =~= Seq::<Seq<u8>>::empty());
            assert(assembled_len(Seq::<Seq<u8>>::empty()) == 0);
            assert(seq![chunk].last() == chunk);
            assert(chunk.len() == k);
            assert(assembled_len(seq![chunk]) == 1 + k);
        }
    }
}

/// Law: appending a relative fragment. The composed path is the base, then
/// a separator unless the base already ends with one, then the fragment —
/// and it names a new group exactly when the fragment has a real component,
/// so `.`, the empty fragment and anything else that normalizes away leave
/// the group unchanged and [`CGroup::append`] reports no change for them.
pub proof fn lemma_append_relative(base: Seq<u8>, fragment: Seq<u8>)
    requires
        is_absolute(base),
        !is_absolute(fragment),
    ensures
        (path_components(join(base, fragment)) != path_components(base)) == (path_components(
            fragment,
        ).len() > 0),
        base.last() != SLASH ==> join(base, fragment) == base + seq![SLASH] + fragment,
{
    lemma_path_components_join(base, fragment);
    if path_components(fragment).len() == 0 {
        assert(path_components(base) + path_components(fragment) =~= path_components(base));
    }
}

/// The parent of an absolute path with a component is a strictly shorter
/// absolute path.
pub proof fn lemma_parent_shorter(s: Seq<u8>)
    requires
        is_absolute(s),
        path_components(s).len() > 0,
    ensures
        is_absolute(parent_of(s)),
        1 <= parent_of(s).len() < s.len(),
{
    let cs = path_components(s);
    lemma_assemble_absolute(cs.drop_last());
    lemma_components_len_bound(s);
    lemma_assemble_len(cs.drop_last());
    lemma_assembled_len_nonneg(cs.drop_last());
    lemma_components_nonempty(s);
    assert(cs.last().len() > 0);
    assert(assembled_len(cs) == assembled_len(cs.drop_last()) + 1 + cs.last().len());
    if cs.len() == 1 {
        assert(parent_of(s).len() == 1);
        assert(s.len() >= assembled_len(cs) >= 2);
    } else {
        assert(parent_of(s).len() == assembled_len(cs.drop_last()));
        assert(assembled_len(cs.drop_last()) <= s.len() - 2);
    }
}

} // verus!
