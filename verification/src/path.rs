//! Normalized request paths: an ordered list of non-empty segments plus a
//! marker recording whether the textual form ended in `/`.

use vstd::prelude::*;
use vstd::string::StrSliceExecFns;
use vstd::string::StringExecFns;

verus! {

/// A single well-formed path segment: non-empty and free of the separator.
pub open spec fn seg_wf(seg: Seq<char>) -> bool {
    seg.len() > 0 && !seg.contains('/')
}

/// Every segment of `segs` is well formed.
pub open spec fn segs_wf(segs: Seq<Seq<char>>) -> bool {
    forall|i: int| 0 <= i < segs.len() ==> seg_wf(#[trigger] segs[i])
}

/// The pieces of `s` split at `sep` with empty pieces dropped; `cur` is the
/// piece read so far.
pub open spec fn split_acc(s: Seq<char>, sep: char, cur: Seq<char>) -> Seq<Seq<char>>
    decreases s.len(),
{
    if s.len() == 0 {
        if cur.len() > 0 {
            seq![cur]
        } else {
            Seq::empty()
        }
    } else if s[0] == sep {
        (if cur.len() > 0 {
            seq![cur]
        } else {
            Seq::empty()
        }) + split_acc(s.drop_first(), sep, Seq::empty())
    } else {
        split_acc(s.drop_first(), sep, cur.push(s[0]))
    }
}

/// The non-empty pieces of `s` split at `sep`, in order.
pub open spec fn split_nonempty(s: Seq<char>, sep: char) -> Seq<Seq<char>> {
    split_acc(s, sep, Seq::empty())
}

/// The segments a textual path denotes: split at `/`, empty segments dropped.
/// Leading and trailing separators therefore never contribute segments.
pub open spec fn path_segments(s: Seq<char>) -> Seq<Seq<char>> {
    split_nonempty(s, '/')
}

/// Whether `s` ends with the character `c`.
pub open spec fn ends_with(s: Seq<char>, c: char) -> bool {
    s.len() > 0 && s[s.len() - 1] == c
}

/// `a` matches `b` as a positional prefix: `a` is no longer than `b` and each
/// non-empty segment of `a` equals the segment of `b` at the same position.
pub open spec fn is_prefix(a: Seq<Seq<char>>, b: Seq<Seq<char>>) -> bool {
    a.len() <= b.len() && forall|i: int|
        0 <= i < a.len() && (#[trigger] a[i]).len() > 0 ==> a[i] == b[i]
}

/// Character-for-character equality of two string slices.
pub fn str_eq(a: &str, b: &str) -> (r: bool)
    ensures
        r == (a@ == b@),
{
    let n = a.unicode_len();
    let m = b.unicode_len();
    if n != m {
        return false;
    }
    let mut i: usize = 0;
    while i < n
        invariant
            n == a@.len(),
            n == b@.len(),
            i <= n,
            forall|j: int| 0 <= j < i ==> a@[j] == b@[j],
        decreases n - i,
    {
        if a.get_char(i) != b.get_char(i) {
            return false;
        }
        i = i + 1;
    }
    proof {
        assert(a@ =~= b@);
    }
    true
}

/// Whether `s` begins with the characters of `p`.
pub open spec fn starts_with(s: Seq<char>, p: Seq<char>) -> bool {
    p.len() <= s.len() && s.take(p.len() as int) == p
}

/// Character-for-character prefix test of two string slices.
pub fn str_starts_with(s: &str, p: &str) -> (r: bool)
    ensures
        r == starts_with(s@, p@),
{
    let n = s.unicode_len();
    let m = p.unicode_len();
    if m > n {
        proof {
            assert(!starts_with(s@, p@));
        }
        return false;
    }
    let mut i: usize = 0;
    while i < m
        invariant
            n == s@.len(),
            m == p@.len(),
            m <= n,
            i <= m,
            forall|j: int| 0 <= j < i ==> s@[j] == p@[j],
        decreases m - i,
    {
        if s.get_char(i) != p.get_char(i) {
            proof {
                assert(s@.take(p@.len() as int)[i as int] != p@[i as int]);
            }
            return false;
        }
        i = i + 1;
    }
    proof {
        assert(s@.take(p@.len() as int) =~= p@);
    }
    true
}

/// The position of the first `c` in `s`, or `-1` when `s` has none.
pub open spec fn first_index(s: Seq<char>, c: char) -> int
    decreases s.len(),
{
    if s.len() == 0 {
        -1
    } else if s[0] == c {
        0
    } else if first_index(s.drop_first(), c) < 0 {
        -1
    } else {
        1 + first_index(s.drop_first(), c)
    }
}

/// What `first_index` is when the first `i` characters are not `c` and the
/// character at `i`, if any, is.
pub proof fn lemma_first_index_at(s: Seq<char>, c: char, i: int)
    requires
        0 <= i <= s.len(),
        forall|j: int| 0 <= j < i ==> s[j] != c,
        i < s.len() ==> s[i] == c,
    ensures
        first_index(s, c) == if i == s.len() {
            -1
        } else {
            i
        },
    decreases i,
{
    if s.len() == 0 {
    } else if i == 0 {
    } else {
        assert(s[0] != c);
        lemma_first_index_at(s.drop_first(), c, i - 1);
    }
}

/// The position of the first `c` in `s`, if `s` has one.
pub fn str_find(s: &str, c: char) -> (r: Option<usize>)
    ensures
        (match r {
            Some(i) => i < s@.len() && first_index(s@, c) == i,
            None => first_index(s@, c) == -1,
        }),
{
    let n = s.unicode_len();
    let mut i: usize = 0;
    while i < n
        invariant
            n == s@.len(),
            i <= n,
            forall|j: int| 0 <= j < i ==> s@[j] != c,
        decreases n - i,
    {
        if s.get_char(i) == c {
            proof {
                lemma_first_index_at(s@, c, i as int);
            }
            return Some(i);
        }
        i = i + 1;
    }
    proof {
        lemma_first_index_at(s@, c, n as int);
    }
    None
}

/// Whether the last character of `s` is `c`.
pub fn str_ends_with(s: &str, c: char) -> (r: bool)
    ensures
        r == ends_with(s@, c),
{
    let n = s.unicode_len();
    if n == 0 {
        false
    } else {
        s.get_char(n - 1) == c
    }
}

/// A normalized path: its non-empty segments in order, and whether the
/// textual form it came from ended in `/`.
pub struct CircuitPath {
    pub ordered_path: Vec<String>,
    pub is_resource_dir: bool,
}

impl CircuitPath {
    /// The segments as mathematical sequences of characters.
    pub open spec fn segs(&self) -> Seq<Seq<char>> {
        self.ordered_path.deep_view()
    }

    /// Every held segment is non-empty and free of `/`.
    pub open spec fn wf(&self) -> bool {
        segs_wf(self.segs())
    }
}

/// `v.push(x)` extends the deep view by `x`'s view.
pub proof fn lemma_deep_view_push(v: Seq<String>, x: String)
    ensures
        Seq::new(v.push(x).len(), |i: int| v.push(x)[i].deep_view()) =~= Seq::new(
            v.len(),
            |i: int| v[i].deep_view(),
        ).push(x@),
{
}

/// Every piece is non-empty and free of the separator.
pub open spec fn pieces_wf(pieces: Seq<Seq<char>>, sep: char) -> bool {
    forall|i: int|
        0 <= i < pieces.len() ==> (#[trigger] pieces[i]).len() > 0 && !pieces[i].contains(sep)
}

/// Split `path` at `sep`, dropping empty pieces.
pub fn split_str(path: &str, sep: char) -> (r: Vec<String>)
    ensures
        r.deep_view() == split_nonempty(path@, sep),
        pieces_wf(r.deep_view(), sep),
{
    let n = path.unicode_len();
        let mut segs: Vec<String> = Vec::new();
        let mut start: usize = 0;
        let mut i: usize = 0;
        proof {
            assert(path@.skip(0) =~= path@);
            assert(path@.subrange(0, 0) =~= Seq::<char>::empty());
            assert(segs.deep_view() =~= Seq::<Seq<char>>::empty());
            assert(Seq::<Seq<char>>::empty() + split_acc(path@, sep, Seq::empty()) =~= split_acc(
                path@,
                sep,
                Seq::empty(),
            ));
        }
        while i < n
            invariant
                n == path@.len(),
                start <= i <= n,
                forall|j: int| start <= j < i ==> path@[j] != sep,
                segs.deep_view() + split_acc(
                    path@.skip(i as int),
                    sep,
                    path@.subrange(start as int, i as int),
                ) =~= split_nonempty(path@, sep),
                pieces_wf(segs.deep_view(), sep),
            decreases n - i,
        {
            let ghost old_segs = segs.deep_view();
            let ghost cur = path@.subrange(start as int, i as int);
            proof {
                assert(path@.skip(i as int)[0] == path@[i as int]);
                assert(path@.skip(i as int).drop_first() =~= path@.skip(i as int + 1));
            }
            let c = path.get_char(i);
            if c == sep {
                if start < i {
                    let seg = path.substring_char(start, i).to_owned();
                    proof {
                        lemma_deep_view_push(segs@, seg);
                    }
                    segs.push(seg);
                    proof {
                        assert(segs.deep_view() =~= old_segs.push(cur));
                        assert(cur.len() > 0 && !cur.contains(sep));
                        assert((old_segs + split_acc(path@.skip(i as int), sep, cur))
                            =~= (segs.deep_view() + split_acc(
                            path@.skip(i as int + 1),
                            sep,
                            Seq::empty(),
                        )));
                    }
                } else {
                    proof {
                        assert(cur =~= Seq::<char>::empty());
                    }
                }
                start = i + 1;
                proof {
                    assert(path@.subrange(start as int, i as int + 1) =~= Seq::<char>::empty());
                }
            } else {
                proof {
                    assert(path@.subrange(start as int, i as int + 1) =~= cur.push(path@[i as int]));
                }
            }
            i = i + 1;
        }
        let ghost cur = path@.subrange(start as int, i as int);
        proof {
            assert(path@.skip(n as int) =~= Seq::<char>::empty());
        }
        if start < n {
            let seg = path.substring_char(start, n).to_owned();
            proof {
                lemma_deep_view_push(segs@, seg);
            }
            let ghost old_segs = segs.deep_view();
            segs.push(seg);
            proof {
                assert(segs.deep_view() =~= old_segs.push(cur));
                assert(cur.len() > 0 && !cur.contains(sep));
                assert(old_segs + split_acc(Seq::empty(), sep, cur) =~= old_segs.push(cur));
            }
        } else {
            proof {
                assert(cur =~= Seq::<char>::empty());
                assert(segs.deep_view() + split_acc(Seq::empty(), sep, cur) =~= segs.deep_view());
            }
        }
        segs
}

impl CircuitPath {
    /// Split a textual path into its non-empty segments, recording whether
    /// the text ended with `/`.
    pub fn parse(path: &str) -> (r: CircuitPath)
        ensures
            r.segs() == path_segments(path@),
            r.is_resource_dir == ends_with(path@, '/'),
            r.wf(),
    {
        let segs = split_str(path, '/');
        let n = path.unicode_len();
        let is_dir = if n > 0 {
            path.get_char(n - 1) == '/'
        } else {
            false
        };
        CircuitPath { ordered_path: segs, is_resource_dir: is_dir }
    }
}

/// The segments joined with `/` between them, no separator at either end.
pub open spec fn join_segs(segs: Seq<Seq<char>>) -> Seq<char>
    decreases segs.len(),
{
    if segs.len() == 0 {
        Seq::empty()
    } else if segs.len() == 1 {
        segs[0]
    } else {
        segs[0] + seq!['/'] + join_segs(segs.drop_first())
    }
}

/// The textual form of a path: joined segments, a trailing `/` when the
/// directory marker is set.
pub open spec fn path_text(segs: Seq<Seq<char>>, dir: bool) -> Seq<char> {
    join_segs(segs) + if dir {
        seq!['/']
    } else {
        Seq::empty()
    }
}

proof fn lemma_join_push(s: Seq<Seq<char>>, x: Seq<char>)
    ensures
        join_segs(s.push(x)) == if s.len() == 0 {
            x
        } else {
            join_segs(s) + seq!['/'] + x
        },
    decreases s.len(),
{
    if s.len() == 0 {
        assert(s.push(x).len() == 1);
        assert(s.push(x)[0] == x);
    } else if s.len() == 1 {
        assert(s.push(x)[0] == s[0]);
        assert(s.push(x).drop_first() =~= seq![x]);
        assert(join_segs(seq![x]) == x);
    } else {
        assert(s.push(x)[0] == s[0]);
        assert(s.push(x).drop_first() =~= s.drop_first().push(x));
        lemma_join_push(s.drop_first(), x);
    }
}

impl CircuitPath {
    /// The textual form this path denotes.
    pub fn to_string(&self) -> (r: String)
        ensures
            r@ == path_text(self.segs(), self.is_resource_dir),
    {
        let mut out = String::new();
        let n = self.ordered_path.len();
        let mut i: usize = 0;
        proof {
            assert(self.segs().take(0) =~= Seq::<Seq<char>>::empty());
        }
        while i < n
            invariant
                n == self.ordered_path.len(),
                i <= n,
                out@ == join_segs(self.segs().take(i as int)),
            decreases n - i,
        {
            proof {
                reveal_strlit("/");
                assert("/"@ =~= seq!['/']);
                lemma_join_push(self.segs().take(i as int), self.segs()[i as int]);
                assert(self.segs().take(i as int).push(self.segs()[i as int]) =~= self.segs()
                    .take(i as int + 1));
            }
            if i > 0 {
                out.append("/");
            }
            out.append(self.ordered_path[i].as_str());
            i = i + 1;
        }
        proof {
            assert(self.segs().take(n as int) =~= self.segs());
        }
        if self.is_resource_dir {
            proof {
                reveal_strlit("/");
                assert("/"@ =~= seq!['/']);
            }
            out.append("/");
        } else {
            proof {
                assert(join_segs(self.segs()) + Seq::<char>::empty() =~= join_segs(self.segs()));
            }
        }
        out
    }

    /// The concatenation of this path's segments with `other`'s; the
    /// directory marker is inherited from `other`.
    pub fn join(&self, other: &CircuitPath) -> (r: CircuitPath)
        ensures
            r.segs() == self.segs() + other.segs(),
            r.is_resource_dir == other.is_resource_dir,
    {
        let mut v: Vec<String> = Vec::new();
        let mut i: usize = 0;
        proof {
            assert(v.deep_view() =~= self.segs().take(0));
        }
        while i < self.ordered_path.len()
            invariant
                i <= self.ordered_path.len(),
                v.deep_view() == self.segs().take(i as int),
            decreases self.ordered_path.len() - i,
        {
            let s = self.ordered_path[i].clone();
            proof {
                lemma_deep_view_push(v@, s);
            }
            v.push(s);
            proof {
                assert(v.deep_view() =~= self.segs().take(i as int + 1));
            }
            i = i + 1;
        }
        proof {
            assert(self.segs().take(self.ordered_path.len() as int) =~= self.segs());
            assert(self.segs() + other.segs().take(0) =~= self.segs());
        }
        let mut j: usize = 0;
        while j < other.ordered_path.len()
            invariant
                j <= other.ordered_path.len(),
                v.deep_view() == self.segs() + other.segs().take(j as int),
            decreases other.ordered_path.len() - j,
        {
            let s = other.ordered_path[j].clone();
            proof {
                lemma_deep_view_push(v@, s);
            }
            v.push(s);
            proof {
                assert(v.deep_view() =~= self.segs() + other.segs().take(j as int + 1));
            }
            j = j + 1;
        }
        proof {
            assert(other.segs().take(other.ordered_path.len() as int) =~= other.segs());
        }
        CircuitPath { ordered_path: v, is_resource_dir: other.is_resource_dir }
    }
}

/// The length of the longest common positional prefix of `a` and `b`,
/// stopping at the first differing position.
pub open spec fn common_prefix_len(a: Seq<Seq<char>>, b: Seq<Seq<char>>) -> int
    decreases a.len(),
{
    if a.len() == 0 || b.len() == 0 || a[0] != b[0] {
        0
    } else {
        1 + common_prefix_len(a.drop_first(), b.drop_first())
    }
}

proof fn lemma_common_prefix_len_step(a: Seq<Seq<char>>, b: Seq<Seq<char>>, i: int)
    requires
        0 <= i <= a.len(),
        i <= b.len(),
        forall|j: int| 0 <= j < i ==> a[j] == b[j],
    ensures
        common_prefix_len(a, b) == i + common_prefix_len(a.skip(i), b.skip(i)),
    decreases i,
{
    if i == 0 {
        assert(a.skip(0) =~= a);
        assert(b.skip(0) =~= b);
    } else {
        assert(a[0] == b[0]);
        lemma_common_prefix_len_step(a.drop_first(), b.drop_first(), i - 1);
        assert(a.drop_first().skip(i - 1) =~= a.skip(i));
        assert(b.drop_first().skip(i - 1) =~= b.skip(i));
    }
}

/// The common prefix is never longer than either sequence.
pub proof fn lemma_common_prefix_len_bounds(a: Seq<Seq<char>>, b: Seq<Seq<char>>)
    ensures
        0 <= common_prefix_len(a, b) <= a.len(),
        common_prefix_len(a, b) <= b.len(),
    decreases a.len(),
{
    if a.len() == 0 || b.len() == 0 || a[0] != b[0] {
    } else {
        lemma_common_prefix_len_bounds(a.drop_first(), b.drop_first());
    }
}

/// When `b` extends `a` position by position, the common prefix is all of `a`.
pub proof fn lemma_common_prefix_len_of_extension(a: Seq<Seq<char>>, b: Seq<Seq<char>>)
    requires
        a.len() <= b.len(),
        forall|j: int| 0 <= j < a.len() ==> a[j] == b[j],
    ensures
        common_prefix_len(b, a) == a.len(),
        common_prefix_len(a, b) == a.len(),
    decreases a.len(),
{
    if a.len() == 0 {
    } else {
        lemma_common_prefix_len_of_extension(a.drop_first(), b.drop_first());
    }
}

impl CircuitPath {
    /// The suffix of this path after its common positional prefix with
    /// `other`; this path's directory marker is kept.
    pub fn get_diff(&self, other: &CircuitPath) -> (r: CircuitPath)
        ensures
            r.segs() == self.segs().skip(common_prefix_len(self.segs(), other.segs())),
            r.is_resource_dir == self.is_resource_dir,
    {
        let a_len = self.ordered_path.len();
        let b_len = other.ordered_path.len();
        let mut k: usize = 0;
        while k < a_len && k < b_len && self.ordered_path[k] == other.ordered_path[k]
            invariant
                a_len == self.ordered_path.len(),
                b_len == other.ordered_path.len(),
                k <= a_len,
                k <= b_len,
                forall|j: int| 0 <= j < k ==> self.segs()[j] == other.segs()[j],
            decreases a_len - k,
        {
            k = k + 1;
        }
        proof {
            lemma_common_prefix_len_step(self.segs(), other.segs(), k as int);
            if k < a_len && k < b_len {
                assert(self.segs().skip(k as int)[0] != other.segs().skip(k as int)[0]);
            }
            assert(common_prefix_len(self.segs(), other.segs()) == k as int);
        }
        let mut v: Vec<String> = Vec::new();
        let mut i: usize = k;
        proof {
            assert(v.deep_view() =~= self.segs().subrange(k as int, k as int));
        }
        while i < a_len
            invariant
                a_len == self.ordered_path.len(),
                k <= i <= a_len,
                v.deep_view() == self.segs().subrange(k as int, i as int),
            decreases a_len - i,
        {
            let s = self.ordered_path[i].clone();
            proof {
                lemma_deep_view_push(v@, s);
            }
            v.push(s);
            proof {
                assert(v.deep_view() =~= self.segs().subrange(k as int, i as int + 1));
            }
            i = i + 1;
        }
        proof {
            assert(self.segs().subrange(k as int, a_len as int) =~= self.segs().skip(k as int));
        }
        CircuitPath { ordered_path: v, is_resource_dir: self.is_resource_dir }
    }

    /// Whether this path is a positional prefix match of `other`.
    pub fn prefix_matches(&self, other: &CircuitPath) -> (r: bool)
        ensures
            r == is_prefix(self.segs(), other.segs()),
    {
        if self.ordered_path.len() > other.ordered_path.len() {
            return false;
        }
        let n = self.ordered_path.len();
        let mut i: usize = 0;
        while i < n
            invariant
                n == self.ordered_path.len(),
                n <= other.ordered_path.len(),
                i <= n,
                forall|j: int|
                    0 <= j < i && (#[trigger] self.segs()[j]).len() > 0 ==> self.segs()[j]
                        == other.segs()[j],
            decreases n - i,
        {
            if !self.ordered_path[i].as_str().is_empty() {
                if !(self.ordered_path[i] == other.ordered_path[i]) {
                    proof {
                        assert(self.segs()[i as int].len() > 0);
                        assert(self.segs()[i as int] != other.segs()[i as int]);
                    }
                    return false;
                }
            }
            i = i + 1;
        }
        true
    }
}

proof fn lemma_split_acc_no_sep(t: Seq<char>, s: Seq<char>, sep: char, cur: Seq<char>)
    requires
        !t.contains(sep),
    ensures
        split_acc(t + s, sep, cur) == split_acc(s, sep, cur + t),
    decreases t.len(),
{
    if t.len() == 0 {
        assert(t + s =~= s);
        assert(cur + t =~= cur);
    } else {
        assert(t[0] != sep);
        assert((t + s)[0] == t[0]);
        assert((t + s).drop_first() =~= t.drop_first() + s);
        assert(!t.drop_first().contains(sep)) by {
            if t.drop_first().contains(sep) {
                let w = choose|w: int|
                    0 <= w < t.drop_first().len() && t.drop_first()[w] == sep;
                assert(t[w + 1] == sep);
            }
        }
        lemma_split_acc_no_sep(t.drop_first(), s, sep, cur.push(t[0]));
        assert(cur.push(t[0]) + t.drop_first() =~= cur + t);
    }
}

proof fn lemma_split_acc_sep_head(s: Seq<char>, sep: char, cur: Seq<char>)
    ensures
        split_acc(seq![sep] + s, sep, cur) == (if cur.len() > 0 {
            seq![cur]
        } else {
            Seq::<Seq<char>>::empty()
        }) + split_acc(s, sep, Seq::empty()),
{
    assert((seq![sep] + s)[0] == sep);
    assert((seq![sep] + s).drop_first() =~= s);
}

/// Parsing the textual form of well-formed segments gives the segments back.
pub proof fn lemma_segments_of_text(segs: Seq<Seq<char>>, dir: bool)
    requires
        segs_wf(segs),
    ensures
        path_segments(path_text(segs, dir)) == segs,
    decreases segs.len(),
{
    let tail: Seq<char> = if dir {
        seq!['/']
    } else {
        Seq::empty()
    };
    if segs.len() == 0 {
        if dir {
            assert(path_text(segs, dir) =~= seq!['/'] + Seq::<char>::empty());
            lemma_split_acc_sep_head(Seq::empty(), '/', Seq::empty());
        } else {
            assert(path_text(segs, dir) =~= Seq::<char>::empty());
        }
        assert(path_segments(path_text(segs, dir)) =~= segs);
    } else if segs.len() == 1 {
        assert(seg_wf(segs[0]));
        assert(path_text(segs, dir) =~= segs[0] + tail);
        lemma_split_acc_no_sep(segs[0], tail, '/', Seq::empty());
        assert(Seq::<char>::empty() + segs[0] =~= segs[0]);
        if dir {
            assert(tail =~= seq!['/'] + Seq::<char>::empty());
            lemma_split_acc_sep_head(Seq::empty(), '/', segs[0]);
            assert(seq![segs[0]] + Seq::<Seq<char>>::empty() =~= seq![segs[0]]);
        }
        assert(seq![segs[0]] =~= segs);
    } else {
        let rest = segs.drop_first();
        assert(segs_wf(rest)) by {
            assert(forall|i: int| 0 <= i < rest.len() ==> rest[i] == segs[i + 1]);
        }
        lemma_segments_of_text(rest, dir);
        let inner = join_segs(rest) + tail;
        assert(seg_wf(segs[0]));
        assert(path_text(segs, dir) =~= segs[0] + (seq!['/'] + inner));
        lemma_split_acc_no_sep(segs[0], seq!['/'] + inner, '/', Seq::empty());
        assert(Seq::<char>::empty() + segs[0] =~= segs[0]);
        lemma_split_acc_sep_head(inner, '/', segs[0]);
        assert(path_text(rest, dir) == inner);
        assert(seq![segs[0]] + rest =~= segs);
    }
}

proof fn lemma_join_last(segs: Seq<Seq<char>>)
    requires
        segs.len() > 0,
        segs_wf(segs),
    ensures
        join_segs(segs).len() > 0,
        join_segs(segs).last() == segs.last().last(),
    decreases segs.len(),
{
    if segs.len() == 1 {
        assert(seg_wf(segs[0]));
    } else {
        let rest = segs.drop_first();
        assert(segs_wf(rest)) by {
            assert(forall|i: int| 0 <= i < rest.len() ==> rest[i] == segs[i + 1]);
        }
        lemma_join_last(rest);
        assert(rest.last() == segs.last());
        assert((segs[0] + seq!['/'] + join_segs(rest)).last() == join_segs(rest).last());
    }
}

/// The textual form ends with `/` exactly when the directory marker is set.
pub proof fn lemma_text_ends_with(segs: Seq<Seq<char>>, dir: bool)
    requires
        segs_wf(segs),
    ensures
        ends_with(path_text(segs, dir), '/') == dir,
{
    if dir {
        assert(path_text(segs, dir).last() == '/');
    } else {
        assert(path_text(segs, dir) =~= join_segs(segs));
        if segs.len() > 0 {
            lemma_join_last(segs);
            assert(seg_wf(segs.last()));
            assert(!segs.last().contains('/'));
            assert(segs.last()[segs.last().len() - 1] != '/');
        }
    }
}

/// Parsing the textual form of a well-formed path yields the same segments
/// and the same directory marker.
pub proof fn lemma_path_round_trip(p: CircuitPath)
    requires
        p.wf(),
    ensures
        path_segments(path_text(p.segs(), p.is_resource_dir)) == p.segs(),
        ends_with(path_text(p.segs(), p.is_resource_dir), '/') == p.is_resource_dir,
{
    lemma_segments_of_text(p.segs(), p.is_resource_dir);
    lemma_text_ends_with(p.segs(), p.is_resource_dir);
}

/// A prefix of a prefix is a prefix.
pub proof fn lemma_prefix_trans(a: Seq<Seq<char>>, b: Seq<Seq<char>>, c: Seq<Seq<char>>)
    requires
        is_prefix(a, b),
        is_prefix(b, c),
    ensures
        is_prefix(a, c),
{
    assert forall|i: int| 0 <= i < a.len() && (#[trigger] a[i]).len() > 0 implies a[i] == c[i] by {
        assert(a[i] == b[i]);
        assert(b[i].len() > 0);
    }
}

/// Two well-formed prefix matches of one path are comparable.
pub proof fn lemma_prefix_comparable(a: Seq<Seq<char>>, b: Seq<Seq<char>>, q: Seq<Seq<char>>)
    requires
        segs_wf(a),
        segs_wf(b),
        is_prefix(a, q),
        is_prefix(b, q),
    ensures
        is_prefix(a, b) || is_prefix(b, a),
{
    if a.len() <= b.len() {
        assert forall|i: int| 0 <= i < a.len() && (#[trigger] a[i]).len() > 0 implies a[i]
            == b[i] by {
            assert(seg_wf(b[i]));
            assert(a[i] == q[i]);
            assert(b[i] == q[i]);
        }
    } else {
        assert forall|i: int| 0 <= i < b.len() && (#[trigger] b[i]).len() > 0 implies b[i]
            == a[i] by {
            assert(seg_wf(a[i]));
            assert(a[i] == q[i]);
            assert(b[i] == q[i]);
        }
    }
}

/// Well-formed prefix matches of equal length are equal.
pub proof fn lemma_prefix_same_len_eq(a: Seq<Seq<char>>, b: Seq<Seq<char>>)
    requires
        segs_wf(a),
        is_prefix(a, b),
        a.len() == b.len(),
    ensures
        a =~= b,
{
    assert forall|i: int| 0 <= i < a.len() implies a[i] == b[i] by {
        assert(seg_wf(a[i]));
    }
}

} // verus!
