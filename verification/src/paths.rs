//! Path algebra on relative paths, modelled as sequences of byte-string
//! segments.  Normalization removes `.` segments and cancels `..` segments
//! against a preceding normal segment; unmatched leading `..` segments are
//! kept verbatim.

use vstd::prelude::*;

verus! {

/// The byte `.`
pub const DOT_BYTE: u8 = 46;
/// The byte `/`
pub const SLASH_BYTE: u8 = 47;

/// The one-byte segment `.`
pub open spec fn dot_seg() -> Seq<u8> {
    seq![DOT_BYTE]
}

/// The two-byte segment `..`
pub open spec fn dotdot_seg() -> Seq<u8> {
    seq![DOT_BYTE, DOT_BYTE]
}

/// A normal segment: a non-empty name that is neither `.` nor `..` and holds
/// no separator.
pub open spec fn is_normal_seg(s: Seq<u8>) -> bool {
    &&& s.len() > 0
    &&& s != dot_seg()
    &&& s != dotdot_seg()
    &&& !s.contains(SLASH_BYTE)
}

/// A path all of whose segments are normal, as a root-relative path of a
/// project tree is.
pub open spec fn is_normal_path(p: Seq<Seq<u8>>) -> bool {
    forall|i: int| 0 <= i < p.len() ==> is_normal_seg(#[trigger] p[i])
}

/// One step of normalization: fold the next segment `c` onto the normalized
/// prefix `r`.  Empty segments (from doubled separators) count as `.`.
pub open spec fn norm_step(r: Seq<Seq<u8>>, c: Seq<u8>) -> Seq<Seq<u8>> {
    if c.len() == 0 || c == dot_seg() {
        r
    } else if c == dotdot_seg() {
        if r.len() > 0 && r.last() != dotdot_seg() {
            r.drop_last()
        } else {
            r.push(dotdot_seg())
        }
    } else {
        r.push(c)
    }
}

/// Normalized form of a relative path: every `.` removed, every `..`
/// cancelled against the preceding segment when one exists; leading `..`
/// segments that nothing cancels are preserved.
pub open spec fn norm_path(p: Seq<Seq<u8>>) -> Seq<Seq<u8>>
    decreases p.len(),
{
    if p.len() == 0 {
        Seq::empty()
    } else {
        norm_step(norm_path(p.drop_last()), p.last())
    }
}

/// True of `s` exactly when it is the literal segment `.`.
pub fn seg_is_dot(s: &Vec<u8>) -> (r: bool)
    ensures
        r == (s@ == dot_seg()),
{
    let r = s.len() == 1 && s[0] == DOT_BYTE;
    proof {
        if r {
            assert(s@ =~= dot_seg());
        }
    }
    r
}

/// True of `s` exactly when it is the literal segment `..`.
pub fn seg_is_dotdot(s: &Vec<u8>) -> (r: bool)
    ensures
        r == (s@ == dotdot_seg()),
{
    let r = s.len() == 2 && s[0] == DOT_BYTE && s[1] == DOT_BYTE;
    proof {
        if r {
            assert(s@ =~= dotdot_seg());
        }
    }
    r
}

/// Builds the segment `..` as a byte vector.
pub fn make_dotdot() -> (r: Vec<u8>)
    ensures
        r@ == dotdot_seg(),
{
    let mut v: Vec<u8> = Vec::new();
    v.push(DOT_BYTE);
    v.push(DOT_BYTE);
    proof {
        assert(v@ =~= dotdot_seg());
    }
    v
}

/// Builds the segment `.` as a byte vector.
pub fn make_dot() -> (r: Vec<u8>)
    ensures
        r@ == dot_seg(),
{
    let mut v: Vec<u8> = Vec::new();
    v.push(DOT_BYTE);
    proof {
        assert(v@ =~= dot_seg());
    }
    v
}

/// Logically removes `.` segments and collapses `..` segments against a
/// preceding segment when one exists, keeping unmatched leading `..`
/// segments.  The path is relative: there is no root marker to mishandle.
pub fn normalize_rel_path(path: &Vec<Vec<u8>>) -> (r: Vec<Vec<u8>>)
    ensures
        r.deep_view() == norm_path(path.deep_view()),
{
    let mut r: Vec<Vec<u8>> = Vec::new();
    let mut i: usize = 0;
    while i < path.len()
        invariant
            i <= path.len(),
            r.deep_view() == norm_path(path.deep_view().take(i as int)),
        decreases path.len() - i,
    {
        let seg = &path[i];
        proof {
            assert(path.deep_view().take(i + 1).drop_last() =~= path.deep_view().take(
                i as int,
            ));
            assert(path.deep_view().take(i + 1).last() == path.deep_view()[i as int]);
            assert(path.deep_view()[i as int] == seg@);
        }
        if seg.len() == 0 || seg_is_dot(seg) {
            // a `.` or empty segment changes nothing
        } else if seg_is_dotdot(seg) {
            let mut popped = false;
            if r.len() > 0 {
                let last_is_dotdot = seg_is_dotdot(&r[r.len() - 1]);
                proof {
                    assert(r.deep_view().last() == r@[r.len() - 1]@);
                }
                if !last_is_dotdot {
                    let ghost prev = r.deep_view();
                    r.pop();
                    proof {
                        assert(r.deep_view() =~= prev.drop_last());
                    }
                    popped = true;
                }
            }
            if !popped {
                let ghost prev = r.deep_view();
                r.push(make_dotdot());
                proof {
                    assert(r.deep_view() =~= prev.push(dotdot_seg()));
                }
            }
        } else {
            let ghost prev = r.deep_view();
            r.push(seg.clone());
            proof {
                assert(r.deep_view() =~= prev.push(seg@));
            }
        }
        i = i + 1;
    }
    proof {
        assert(path.deep_view().take(path.len() as int) =~= path.deep_view());
    }
    r
}

/// Index of the first separator in `s`, or `s.len()` when there is none.
pub open spec fn first_slash(s: Seq<u8>) -> int
    decreases s.len(),
{
    if s.len() == 0 {
        0
    } else if s[0] == SLASH_BYTE {
        0
    } else {
        1 + first_slash(s.skip(1))
    }
}

/// The first separator index is pinned by its characterization: no separator
/// before it, and a separator (or the end) at it.
pub proof fn lemma_first_slash_is(s: Seq<u8>, k: int)
    requires
        0 <= k <= s.len(),
        forall|j: int| 0 <= j < k ==> s[j] != SLASH_BYTE,
        k < s.len() ==> s[k] == SLASH_BYTE,
    ensures
        first_slash(s) == k,
    decreases s.len(),
{
    if s.len() == 0 || s[0] == SLASH_BYTE {
    } else {
        assert(forall|j: int| 0 <= j < k - 1 ==> s.skip(1)[j] == s[j + 1]);
        lemma_first_slash_is(s.skip(1), k - 1);
    }
}

/// The segments of `s`, split on `/`.  Splitting the empty literal yields one
/// empty segment, and doubled separators yield empty segments, as ordinary
/// string splitting does.
pub open spec fn split_slash(s: Seq<u8>) -> Seq<Seq<u8>>
    decreases s.len(),
{
    let i = first_slash(s);
    if 0 <= i < s.len() {
        seq![s.take(i)] + split_slash(s.skip(i + 1))
    } else {
        seq![s]
    }
}

/// Splits a path literal on `/` into its segments.
pub fn split_literal(lit: &Vec<u8>) -> (r: Vec<Vec<u8>>)
    ensures
        r.deep_view() == split_slash(lit@),
{
    let mut r: Vec<Vec<u8>> = Vec::new();
    let mut cur: Vec<u8> = Vec::new();
    let mut seg_start: usize = 0;
    let mut i: usize = 0;
    proof {
        assert(lit@.skip(0) =~= lit@);
        assert(r.deep_view() + split_slash(lit@) =~= split_slash(lit@));
    }
    while i < lit.len()
        invariant
            seg_start <= i <= lit.len(),
            cur@ == lit@.subrange(seg_start as int, i as int),
            forall|j: int| seg_start <= j < i ==> lit@[j] != SLASH_BYTE,
            split_slash(lit@) == r.deep_view() + split_slash(lit@.skip(seg_start as int)),
        decreases lit.len() - i,
    {
        let b = lit[i];
        if b == SLASH_BYTE {
            proof {
                let s = lit@.skip(seg_start as int);
                let k = i - seg_start;
                assert(forall|j: int| 0 <= j < k ==> s[j] == lit@[j + seg_start]);
                lemma_first_slash_is(s, k);
                assert(s.take(k) =~= cur@);
                assert(s.skip(k + 1) =~= lit@.skip(i + 1));
                assert(split_slash(s) == seq![cur@] + split_slash(lit@.skip(i + 1)));
                assert(r.deep_view() + split_slash(s) =~= r.deep_view().push(cur@)
                    + split_slash(lit@.skip(i + 1)));
            }
            let ghost prev = r.deep_view();
            let ghost cv = cur@;
            r.push(cur);
            proof {
                assert(r.deep_view() =~~= prev.push(cv));
            }
            cur = Vec::new();
            seg_start = i + 1;
            proof {
                assert(cur@ =~= lit@.subrange(seg_start as int, i + 1));
            }
        } else {
            cur.push(b);
            proof {
                assert(cur@ =~= lit@.subrange(seg_start as int, i + 1));
            }
        }
        i = i + 1;
    }
    proof {
        let s = lit@.skip(seg_start as int);
        assert(forall|j: int| 0 <= j < s.len() ==> s[j] == lit@[j + seg_start]);
        lemma_first_slash_is(s, s.len() as int);
        assert(split_slash(s) == seq![s]);
        assert(s =~= cur@);
    }
    let ghost prev = r.deep_view();
    let ghost cv = cur@;
    r.push(cur);
    proof {
        assert(r.deep_view() =~~= prev.push(cv));
        assert(r.deep_view() =~= split_slash(lit@));
    }
    r
}

/// The literal obtained by joining `segs` with `/` separators.
pub open spec fn join_slash(segs: Seq<Seq<u8>>) -> Seq<u8>
    decreases segs.len(),
{
    if segs.len() == 0 {
        Seq::empty()
    } else if segs.len() == 1 {
        segs[0]
    } else {
        segs[0] + seq![SLASH_BYTE] + join_slash(segs.skip(1))
    }
}

/// Splitting undoes joining, for non-empty segment lists whose segments hold
/// no separator.
pub proof fn lemma_split_join(segs: Seq<Seq<u8>>)
    requires
        segs.len() > 0,
        forall|i: int| 0 <= i < segs.len() ==> !(#[trigger] segs[i]).contains(SLASH_BYTE),
    ensures
        split_slash(join_slash(segs)) == segs,
    decreases segs.len(),
{
    let j = join_slash(segs);
    if segs.len() == 1 {
        assert(!segs[0].contains(SLASH_BYTE));
        assert(forall|i: int| 0 <= i < j.len() ==> j[i] != SLASH_BYTE);
        lemma_first_slash_is(j, j.len() as int);
        assert(split_slash(j) =~= segs);
    } else {
        let k = segs[0].len() as int;
        assert(j =~= segs[0] + seq![SLASH_BYTE] + join_slash(segs.skip(1)));
        assert(forall|i: int| 0 <= i < k ==> j[i] == segs[0][i]);
        assert(!segs[0].contains(SLASH_BYTE));
        assert(forall|i: int| 0 <= i < k ==> j[i] != SLASH_BYTE);
        assert(j[k] == SLASH_BYTE);
        lemma_first_slash_is(j, k);
        assert(j.take(k) =~= segs[0]);
        assert(j.skip(k + 1) =~= join_slash(segs.skip(1)));
        assert(forall|i: int| 0 <= i < segs.skip(1).len() ==> !(#[trigger] segs.skip(
            1,
        )[i]).contains(SLASH_BYTE));
        lemma_split_join(segs.skip(1));
        assert(split_slash(j) =~= seq![segs[0]] + segs.skip(1));
        assert(seq![segs[0]] + segs.skip(1) =~= segs);
    }
}

/// Joins segments with `/` separators.
pub fn join_segments(segs: &Vec<Vec<u8>>) -> (r: Vec<u8>)
    ensures
        r@ == join_slash(segs.deep_view()),
{
    let mut r: Vec<u8> = Vec::new();
    let mut i: usize = 0;
    while i < segs.len()
        invariant
            i <= segs.len(),
            i == 0 ==> r@ == Seq::<u8>::empty(),
            0 < i < segs.len() ==> join_slash(segs.deep_view()) == r@ + seq![SLASH_BYTE]
                + join_slash(segs.deep_view().skip(i as int)),
            i == segs.len() && i > 0 ==> r@ == join_slash(segs.deep_view()),
        decreases segs.len() - i,
    {
        if i > 0 {
            r.push(SLASH_BYTE);
        }
        let seg = &segs[i];
        let mut j: usize = 0;
        let ghost mid = r@;
        while j < seg.len()
            invariant
                j <= seg.len(),
                r@ == mid + seg@.take(j as int),
            decreases seg.len() - j,
        {
            r.push(seg[j]);
            proof {
                assert(r@ =~= mid + seg@.take(j + 1));
            }
            j = j + 1;
        }
        proof {
            assert(seg@.take(seg@.len() as int) =~= seg@);
            let sv = segs.deep_view();
            let rest = sv.skip(i as int);
            assert(rest[0] == seg@);
            if i + 1 < segs.len() {
                assert(rest.len() >= 2);
                assert(join_slash(rest) == rest[0] + seq![SLASH_BYTE] + join_slash(
                    rest.skip(1),
                ));
                assert(rest.skip(1) =~= sv.skip(i + 1));
            } else {
                assert(rest.len() == 1);
                assert(join_slash(rest) == rest[0]);
            }
            if i == 0 {
                assert(r@ =~= seg@);
                if segs.len() > 1 {
                    assert(sv.skip(0) =~= sv);
                    assert(join_slash(sv) == sv[0] + seq![SLASH_BYTE] + join_slash(sv.skip(1)));
                }
            }
        }
        i = i + 1;
    }
    proof {
        if segs.len() == 0 {
            assert(r@ =~= join_slash(segs.deep_view()));
        }
    }
    r
}

/// Byte-string equality.
pub fn bytes_eq(a: &Vec<u8>, b: &Vec<u8>) -> (r: bool)
    ensures
        r == (a@ == b@),
{
    if a.len() != b.len() {
        return false;
    }
    let mut i: usize = 0;
    while i < a.len()
        invariant
            i <= a.len(),
            a@.len() == b@.len(),
            forall|j: int| 0 <= j < i ==> a@[j] == b@[j],
        decreases a.len() - i,
    {
        if a[i] != b[i] {
            return false;
        }
        i = i + 1;
    }
    proof {
        assert(a@ =~= b@);
    }
    true
}

/// Segment-list equality.
pub fn segs_eq(a: &Vec<Vec<u8>>, b: &Vec<Vec<u8>>) -> (r: bool)
    ensures
        r == (a.deep_view() == b.deep_view()),
{
    if a.len() != b.len() {
        proof {
            assert(a.deep_view().len() != b.deep_view().len());
        }
        return false;
    }
    let mut i: usize = 0;
    while i < a.len()
        invariant
            i <= a.len(),
            a@.len() == b@.len(),
            forall|j: int| 0 <= j < i ==> a.deep_view()[j] == b.deep_view()[j],
        decreases a.len() - i,
    {
        if !bytes_eq(&a[i], &b[i]) {
            proof {
                assert(a.deep_view()[i as int] =~= a@[i as int]@);
                assert(b.deep_view()[i as int] =~= b@[i as int]@);
                assert(a.deep_view()[i as int] != b.deep_view()[i as int]);
            }
            return false;
        }
        proof {
            assert(a.deep_view()[i as int] =~= a@[i as int]@);
            assert(b.deep_view()[i as int] =~= b@[i as int]@);
        }
        i = i + 1;
    }
    proof {
        assert(a.deep_view() =~= b.deep_view());
    }
    true
}

/// Number of leading segments shared by `a` and `b`.
pub open spec fn common_prefix_len(a: Seq<Seq<u8>>, b: Seq<Seq<u8>>) -> int
    decreases a.len(),
{
    if a.len() > 0 && b.len() > 0 && a[0] == b[0] {
        1 + common_prefix_len(a.skip(1), b.skip(1))
    } else {
        0
    }
}

pub proof fn lemma_cpl_bounds(a: Seq<Seq<u8>>, b: Seq<Seq<u8>>)
    ensures
        0 <= common_prefix_len(a, b) <= a.len(),
        common_prefix_len(a, b) <= b.len(),
        forall|j: int| 0 <= j < common_prefix_len(a, b) ==> a[j] == b[j],
        common_prefix_len(a, b) < a.len() && common_prefix_len(a, b) < b.len() ==> a[
            common_prefix_len(a, b)
        ] != b[common_prefix_len(a, b)],
    decreases a.len(),
{
    if a.len() > 0 && b.len() > 0 && a[0] == b[0] {
        lemma_cpl_bounds(a.skip(1), b.skip(1));
        let k = common_prefix_len(a, b);
        assert forall|j: int| 0 <= j < k implies a[j] == b[j] by {
            if j >= 1 {
                assert(a.skip(1)[j - 1] == a[j]);
                assert(b.skip(1)[j - 1] == b[j]);
            }
        }
        if k < a.len() && k < b.len() {
            assert(a.skip(1)[k - 1] == a[k]);
            assert(b.skip(1)[k - 1] == b[k]);
        }
    }
}

/// The shortest relative path from the directory `base` to `target`: climb
/// out of the segments of `base` past the common prefix, then descend along
/// the rest of `target`.
pub open spec fn rel_segs(base: Seq<Seq<u8>>, target: Seq<Seq<u8>>) -> Seq<Seq<u8>> {
    let k = common_prefix_len(base, target);
    Seq::new((base.len() - k) as nat, |i: int| dotdot_seg()) + target.skip(k)
}

/// Computes the shortest relative path from the directory `base` to
/// `target`, as a segment list.
pub fn relative_segs(base: &Vec<Vec<u8>>, target: &Vec<Vec<u8>>) -> (r: Vec<Vec<u8>>)
    ensures
        r.deep_view() == rel_segs(base.deep_view(), target.deep_view()),
{
    let ghost av = base.deep_view();
    let ghost bv = target.deep_view();
    proof {
        assert(av.len() == base@.len());
        assert(bv.len() == target@.len());
    }
    let mut k: usize = 0;
    loop
        invariant
            k <= base.len(),
            k <= target.len(),
            av == base.deep_view(),
            bv == target.deep_view(),
            av.len() == base@.len(),
            bv.len() == target@.len(),
            forall|j: int| 0 <= j < k ==> av[j] == bv[j],
        ensures
            k <= av.len(),
            k <= bv.len(),
            forall|j: int| 0 <= j < k ==> av[j] == bv[j],
            k < av.len() && k < bv.len() ==> av[k as int] != bv[k as int],
        decreases av.len() - k,
    {
        if k >= base.len() || k >= target.len() {
            break ;
        }
        let eq = bytes_eq(&base[k], &target[k]);
        proof {
            assert(av[k as int] =~= base@[k as int]@);
            assert(bv[k as int] =~= target@[k as int]@);
        }
        if !eq {
            break ;
        }
        k = k + 1;
    }
    proof {
        lemma_cpl_bounds(av, bv);
        let k0 = common_prefix_len(av, bv);
        if k < k0 {
            assert(av[k as int] == bv[k as int]);
            assert(false);
        }
        if k0 < k {
            assert(av[k0] == bv[k0]);
            assert(false);
        }
        assert(k == k0);
    }
    let mut r: Vec<Vec<u8>> = Vec::new();
    let ups: usize = base.len() - k;
    let mut i: usize = 0;
    while i < ups
        invariant
            i <= ups,
            r.deep_view() == Seq::new(i as nat, |t: int| dotdot_seg()),
        decreases ups - i,
    {
        let ghost prev = r.deep_view();
        r.push(make_dotdot());
        proof {
            assert(r.deep_view() =~~= prev.push(dotdot_seg()));
            assert(prev.push(dotdot_seg()) =~= Seq::new((i + 1) as nat, |t: int| dotdot_seg()));
        }
        i = i + 1;
    }
    let mut j: usize = k;
    while j < target.len()
        invariant
            k <= j <= target.len(),
            bv == target.deep_view(),
            bv.len() == target@.len(),
            r.deep_view() == Seq::new(ups as nat, |t: int| dotdot_seg()) + bv.subrange(
                k as int,
                j as int,
            ),
        decreases target.len() - j,
    {
        let ghost prev = r.deep_view();
        let seg = target[j].clone();
        proof {
            assert(seg@ =~= bv[j as int]);
        }
        r.push(seg);
        proof {
            assert(r.deep_view() =~~= prev.push(bv[j as int]));
            assert(prev.push(bv[j as int]) =~= Seq::new(ups as nat, |t: int| dotdot_seg())
                + bv.subrange(k as int, j + 1));
        }
        j = j + 1;
    }
    proof {
        assert(bv.subrange(k as int, bv.len() as int) =~= bv.skip(k as int));
        assert(r.deep_view() =~= rel_segs(av, bv));
    }
    r
}

/// The literal text that a relative segment list is written as: plain joined
/// segments when it climbs (`../x`), a `./` prefix when it descends
/// (`./x/y`), and `.` alone for the empty path.
pub open spec fn render_rel(r: Seq<Seq<u8>>) -> Seq<u8> {
    if r.len() == 0 {
        dot_seg()
    } else if r[0] == dotdot_seg() {
        join_slash(r)
    } else {
        join_slash(seq![dot_seg()] + r)
    }
}

/// Renders a relative segment list as a path literal.
pub fn render_rel_literal(segs: &Vec<Vec<u8>>) -> (r: Vec<u8>)
    ensures
        r@ == render_rel(segs.deep_view()),
{
    if segs.len() == 0 {
        return make_dot();
    }
    let first_is_dotdot = seg_is_dotdot(&segs[0]);
    proof {
        assert(segs.deep_view()[0] =~= segs@[0]@);
    }
    if first_is_dotdot {
        return join_segments(segs);
    }
    let mut with_dot: Vec<Vec<u8>> = Vec::new();
    with_dot.push(make_dot());
    proof {
        assert(with_dot.deep_view() =~~= seq![dot_seg()] + segs.deep_view().take(0));
    }
    let mut i: usize = 0;
    while i < segs.len()
        invariant
            i <= segs.len(),
            segs.deep_view().len() == segs@.len(),
            with_dot.deep_view() == seq![dot_seg()] + segs.deep_view().take(i as int),
        decreases segs.len() - i,
    {
        let ghost prev = with_dot.deep_view();
        let seg = segs[i].clone();
        proof {
            assert(seg@ =~= segs.deep_view()[i as int]);
        }
        with_dot.push(seg);
        proof {
            assert(with_dot.deep_view() =~~= prev.push(segs.deep_view()[i as int]));
            assert(prev.push(segs.deep_view()[i as int]) =~= seq![dot_seg()]
                + segs.deep_view().take(i + 1));
        }
        i = i + 1;
    }
    proof {
        assert(segs.deep_view().take(segs@.len() as int) =~= segs.deep_view());
    }
    join_segments(&with_dot)
}

/// The target a literal denotes, resolved from the directory `parent` that
/// holds the file the literal stands in.
pub open spec fn resolve_lit(parent: Seq<Seq<u8>>, lit: Seq<u8>) -> Seq<Seq<u8>> {
    norm_path(parent + split_slash(lit))
}

/// Resolves a path literal against the directory holding its file.
pub fn resolve_literal(parent: &Vec<Vec<u8>>, lit: &Vec<u8>) -> (r: Vec<Vec<u8>>)
    ensures
        r.deep_view() == resolve_lit(parent.deep_view(), lit@),
{
    let segs = split_literal(lit);
    let mut joined = parent.clone();
    proof {
        assert(joined.deep_view() =~~= parent.deep_view());
        assert(joined.deep_view() + segs.deep_view() =~= parent.deep_view() + split_slash(lit@));
    }
    let ghost before = joined.deep_view();
    let mut i: usize = 0;
    while i < segs.len()
        invariant
            i <= segs.len(),
            segs.deep_view().len() == segs@.len(),
            segs.deep_view() == split_slash(lit@),
            joined.deep_view() == before + segs.deep_view().take(i as int),
        decreases segs.len() - i,
    {
        let ghost prev = joined.deep_view();
        let seg = segs[i].clone();
        proof {
            assert(seg@ =~= segs.deep_view()[i as int]);
        }
        joined.push(seg);
        proof {
            assert(joined.deep_view() =~~= prev.push(segs.deep_view()[i as int]));
            assert(prev.push(segs.deep_view()[i as int]) =~= before + segs.deep_view().take(
                i + 1,
            ));
        }
        i = i + 1;
    }
    proof {
        assert(segs.deep_view().take(segs@.len() as int) =~= segs.deep_view());
        assert(joined.deep_view() =~= parent.deep_view() + split_slash(lit@));
    }
    normalize_rel_path(&joined)
}

/// Normalizing a concatenation only looks at the left part through its
/// normal form.
pub proof fn lemma_norm_append(a: Seq<Seq<u8>>, a2: Seq<Seq<u8>>, b: Seq<Seq<u8>>)
    requires
        norm_path(a) == norm_path(a2),
    ensures
        norm_path(a + b) == norm_path(a2 + b),
    decreases b.len(),
{
    if b.len() == 0 {
        assert(a + b =~= a);
        assert(a2 + b =~= a2);
    } else {
        lemma_norm_append(a, a2, b.drop_last());
        assert((a + b).drop_last() =~= a + b.drop_last());
        assert((a2 + b).drop_last() =~= a2 + b.drop_last());
        assert((a + b).last() == b.last());
        assert((a2 + b).last() == b.last());
    }
}

/// A path of normal segments is already in normal form.
pub proof fn lemma_norm_normal_id(p: Seq<Seq<u8>>)
    requires
        is_normal_path(p),
    ensures
        norm_path(p) == p,
    decreases p.len(),
{
    if p.len() > 0 {
        assert forall|i: int| 0 <= i < p.drop_last().len() implies is_normal_seg(
            #[trigger] p.drop_last()[i],
        ) by {
            assert(p.drop_last()[i] == p[i]);
        }
        lemma_norm_normal_id(p.drop_last());
        assert(is_normal_seg(p.last()));
        assert(p.drop_last().push(p.last()) =~= p);
    }
}

/// No segment of a normalized path is empty or `.`.
pub open spec fn no_dot_segs(p: Seq<Seq<u8>>) -> bool {
    forall|i: int| 0 <= i < p.len() ==> (#[trigger] p[i]).len() > 0 && p[i] != dot_seg()
}

pub proof fn lemma_norm_no_dots(p: Seq<Seq<u8>>)
    ensures
        no_dot_segs(norm_path(p)),
    decreases p.len(),
{
    if p.len() > 0 {
        lemma_norm_no_dots(p.drop_last());
        let r = norm_path(p.drop_last());
        let c = p.last();
        if c.len() == 0 || c == dot_seg() {
        } else if c == dotdot_seg() {
            if r.len() > 0 && r.last() != dotdot_seg() {
                assert forall|i: int| 0 <= i < r.drop_last().len() implies (#[trigger] r.drop_last()[
                    i
                ]).len() > 0 && r.drop_last()[i] != dot_seg() by {
                    assert(r.drop_last()[i] == r[i]);
                }
            }
        }
    }
}

/// Normalizing a concatenation only looks at the right part through its
/// normal form.
pub proof fn lemma_norm_absorb(a: Seq<Seq<u8>>, b: Seq<Seq<u8>>)
    ensures
        norm_path(a + b) == norm_path(a + norm_path(b)),
    decreases b.len(),
{
    if b.len() == 0 {
        assert(norm_path(b) == Seq::<Seq<u8>>::empty());
        assert(a + b =~= a + norm_path(b));
    } else {
        let c = b.last();
        let b0 = b.drop_last();
        lemma_norm_absorb(a, b0);
        lemma_norm_no_dots(b0);
        let r = norm_path(b0);
        assert((a + b).drop_last() =~= a + b0);
        assert((a + b).last() == c);
        if c.len() == 0 || c == dot_seg() {
            assert(norm_path(b) == r);
        } else if c == dotdot_seg() {
            if r.len() > 0 && r.last() != dotdot_seg() {
                let x = r.last();
                assert(x.len() > 0 && x != dot_seg());
                assert((a + r).drop_last() =~= a + r.drop_last());
                assert((a + r).last() == x);
                assert(norm_path(a + r) == norm_path(a + r.drop_last()).push(x));
                assert(norm_path(b) == r.drop_last());
                assert(norm_path(a + b) == norm_path(a + r.drop_last()));
            } else {
                assert(norm_path(b) == r.push(dotdot_seg()));
                assert((a + r.push(dotdot_seg())).drop_last() =~= a + r);
                assert((a + r.push(dotdot_seg())).last() == dotdot_seg());
            }
        } else {
            assert(norm_path(b) == r.push(c));
            assert((a + r.push(c)).drop_last() =~= a + r);
            assert((a + r.push(c)).last() == c);
        }
    }
}

/// Appending `u` climbs to a path of normal segments strips its last `u`
/// segments.
pub proof fn lemma_norm_updots(p: Seq<Seq<u8>>, u: int)
    requires
        is_normal_path(p),
        0 <= u <= p.len(),
    ensures
        norm_path(p + Seq::new(u as nat, |i: int| dotdot_seg())) == p.take(p.len() - u),
    decreases u,
{
    if u == 0 {
        assert(p + Seq::new(0, |i: int| dotdot_seg()) =~= p);
        lemma_norm_normal_id(p);
        assert(p.take(p.len() as int) =~= p);
    } else {
        lemma_norm_updots(p, u - 1);
        let s = p + Seq::new(u as nat, |i: int| dotdot_seg());
        assert(s.drop_last() =~= p + Seq::new((u - 1) as nat, |i: int| dotdot_seg()));
        assert(s.last() == dotdot_seg());
        let r = p.take(p.len() - (u - 1));
        assert(r.len() > 0);
        assert(r.last() == p[p.len() - u]);
        assert(is_normal_seg(p[p.len() - u]));
        assert(r.drop_last() =~= p.take(p.len() - u));
    }
}

/// The computed relative path really leads from `base` to `target`: joining
/// it to `base` and normalizing lands exactly on `target`.
pub proof fn lemma_rel_round_trip(base: Seq<Seq<u8>>, target: Seq<Seq<u8>>)
    requires
        is_normal_path(base),
        is_normal_path(target),
    ensures
        norm_path(base + rel_segs(base, target)) == target,
{
    lemma_cpl_bounds(base, target);
    let k = common_prefix_len(base, target);
    let u = base.len() - k;
    let ups = Seq::new(u as nat, |i: int| dotdot_seg());
    let rest = target.skip(k);
    assert(base + rel_segs(base, target) =~= (base + ups) + rest);
    lemma_norm_updots(base, u);
    assert(base.take(k) =~= target.take(k));
    assert forall|i: int| 0 <= i < target.take(k).len() implies is_normal_seg(
        #[trigger] target.take(k)[i],
    ) by {
        assert(target.take(k)[i] == target[i]);
    }
    lemma_norm_normal_id(target.take(k));
    assert(norm_path(base + ups) == norm_path(target.take(k)));
    lemma_norm_append(base + ups, target.take(k), rest);
    assert(target.take(k) + rest =~= target);
    lemma_norm_normal_id(target);
}

/// Rendering the relative path as a literal and resolving that literal from
/// the same directory returns exactly the target path.
pub proof fn lemma_render_round_trip(parent: Seq<Seq<u8>>, target: Seq<Seq<u8>>)
    requires
        is_normal_path(parent),
        is_normal_path(target),
    ensures
        resolve_lit(parent, render_rel(rel_segs(parent, target))) == target,
{
    let r = rel_segs(parent, target);
    lemma_cpl_bounds(parent, target);
    let k = common_prefix_len(parent, target);
    let u = parent.len() - k;
    assert(!dot_seg().contains(SLASH_BYTE)) by {
        assert(forall|i: int| 0 <= i < dot_seg().len() ==> dot_seg()[i] == DOT_BYTE);
    }
    assert(!dotdot_seg().contains(SLASH_BYTE)) by {
        assert(forall|i: int| 0 <= i < dotdot_seg().len() ==> dotdot_seg()[i] == DOT_BYTE);
    }
    if r.len() == 0 {
        assert(u == 0 && target.skip(k).len() == 0);
        assert(parent =~= target);
        lemma_first_slash_is(dot_seg(), 1);
        assert(split_slash(dot_seg()) =~= seq![dot_seg()]);
        assert((parent + seq![dot_seg()]).drop_last() =~= parent);
        assert((parent + seq![dot_seg()]).last() == dot_seg());
        lemma_norm_normal_id(parent);
    } else {
        assert forall|i: int| 0 <= i < r.len() implies !(#[trigger] r[i]).contains(
            SLASH_BYTE,
        ) by {
            if i < u {
                assert(r[i] == dotdot_seg());
            } else {
                assert(r[i] == target.skip(k)[i - u]);
                assert(target.skip(k)[i - u] == target[k + i - u]);
                assert(is_normal_seg(target[k + i - u]));
            }
        }
        assert forall|i: int| 0 <= i < r.len() implies (#[trigger] r[i]).len() > 0 by {
            if i < u {
                assert(r[i] == dotdot_seg());
            } else {
                assert(r[i] == target.skip(k)[i - u]);
                assert(is_normal_seg(target[k + i - u]));
            }
        }
        if r[0] == dotdot_seg() {
            lemma_split_join(r);
            lemma_rel_round_trip(parent, target);
        } else {
            let withdot = seq![dot_seg()] + r;
            assert forall|i: int| 0 <= i < withdot.len() implies !(#[trigger] withdot[i]).contains(
                SLASH_BYTE,
            ) by {
                if i == 0 {
                    assert(withdot[i] == dot_seg());
                } else {
                    assert(withdot[i] == r[i - 1]);
                }
            }
            lemma_split_join(withdot);
            assert((parent + seq![dot_seg()]).drop_last() =~= parent);
            assert((parent + seq![dot_seg()]).last() == dot_seg());
            lemma_norm_normal_id(parent);
            assert(norm_path(parent + seq![dot_seg()]) == norm_path(parent));
            lemma_norm_append(parent + seq![dot_seg()], parent, r);
            assert((parent + seq![dot_seg()]) + r =~= parent + (seq![dot_seg()] + r));
            lemma_rel_round_trip(parent, target);
        }
    }
}

/// Two literals with the same normalized segment list resolve to the same
/// target from any directory; in particular they match, or fail to match,
/// any moved path identically.
pub proof fn lemma_resolve_equiv(parent: Seq<Seq<u8>>, lit1: Seq<u8>, lit2: Seq<u8>)
    requires
        norm_path(split_slash(lit1)) == norm_path(split_slash(lit2)),
    ensures
        resolve_lit(parent, lit1) == resolve_lit(parent, lit2),
{
    lemma_norm_absorb(parent, split_slash(lit1));
    lemma_norm_absorb(parent, split_slash(lit2));
}

} // verus!
