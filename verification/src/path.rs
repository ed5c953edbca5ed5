//! Absolute directory paths in normalized form.
//!
//! A path is held as its sequence of segments below the root; `/` itself
//! has no segments. Parsing splits on the separator, drops empty and `.`
//! segments, and lets `..` pop the nearest segment, so that two paths
//! naming the same directory compare equal segment for segment.

use vstd::prelude::*;
use crate::strutil::push_char;
use vstd::string::StringExecFns;
use vstd::string::StrSliceExecFns;

verus! {

/// A segment of a normalized absolute directory path: nonempty, free of
/// the separator, and neither `.` nor `..`.
pub open spec fn seg_ok(s: Seq<char>) -> bool {
    &&& s.len() > 0
    &&& !s.contains('/')
    &&& s != seq!['.']
    &&& s != seq!['.', '.']
}

/// Folds one raw segment into the normalized segment stack: empty and `.`
/// segments are dropped, `..` pops the nearest segment (staying at the
/// root when there is none), anything else is kept.
pub open spec fn norm_step(acc: Seq<Seq<char>>, cur: Seq<char>) -> Seq<Seq<char>> {
    if cur.len() == 0 || cur == seq!['.'] {
        acc
    } else if cur == seq!['.', '.'] {
        if acc.len() == 0 {
            acc
        } else {
            acc.drop_last()
        }
    } else {
        acc.push(cur)
    }
}

/// Normalization of the suffix of `s` that starts at `i`, given the
/// segments already produced (`acc`) and the partial segment read so far
/// (`cur`).
pub open spec fn norm_from(s: Seq<char>, i: int, acc: Seq<Seq<char>>, cur: Seq<char>) -> Seq<
    Seq<char>,
>
    decreases s.len() - i,
{
    if i < 0 || i >= s.len() {
        norm_step(acc, cur)
    } else if s[i] == '/' {
        norm_from(s, i + 1, norm_step(acc, cur), Seq::empty())
    } else {
        norm_from(s, i + 1, acc, cur.push(s[i]))
    }
}

/// The segments of the normalized absolute form of the path string `s`.
pub open spec fn normalize(s: Seq<char>) -> Seq<Seq<char>> {
    norm_from(s, 0, Seq::empty(), Seq::empty())
}

/// The concatenation of `/seg` for each segment, in order.
pub open spec fn path_str_segs(segs: Seq<Seq<char>>) -> Seq<char>
    decreases segs.len(),
{
    if segs.len() == 0 {
        Seq::empty()
    } else {
        path_str_segs(segs.drop_last()) + seq!['/'] + segs.last()
    }
}

/// The textual absolute form of a normalized path: `/` for the root,
/// otherwise `/seg` for each segment in order.
pub open spec fn path_str(segs: Seq<Seq<char>>) -> Seq<char> {
    if segs.len() == 0 {
        seq!['/']
    } else {
        path_str_segs(segs)
    }
}

proof fn lemma_push_no_sep(s: Seq<char>, c: char)
    requires
        !s.contains('/'),
        c != '/',
    ensures
        !s.push(c).contains('/'),
{
    if s.push(c).contains('/') {
        let k = choose|k: int| 0 <= k < s.push(c).len() && s.push(c)[k] == '/';
        if k < s.len() {
            assert(s[k] == '/');
            assert(s.contains('/'));
        } else {
            assert(s.push(c)[k] == c);
        }
    }
}

proof fn lemma_norm_step_wf(acc: Seq<Seq<char>>, cur: Seq<char>)
    requires
        forall|j: int| 0 <= j < acc.len() ==> seg_ok(#[trigger] acc[j]),
        !cur.contains('/'),
    ensures
        forall|j: int| 0 <= j < norm_step(acc, cur).len() ==> seg_ok(#[trigger] norm_step(acc, cur)[j]),
{
    if cur.len() == 0 || cur == seq!['.'] {
    } else if cur == seq!['.', '.'] {
    } else {
        assert(seg_ok(cur));
        assert(forall|j: int|
            0 <= j < acc.push(cur).len() ==> seg_ok(#[trigger] acc.push(cur)[j])) by {
            assert(forall|j: int| 0 <= j < acc.len() ==> acc.push(cur)[j] == acc[j]);
            assert(acc.push(cur)[acc.len() as int] == cur);
        }
    }
}

/// The normalization state after reading a prefix: the segments
/// produced so far and the partial segment still being read, before the
/// final fold of `norm_step`.
spec fn norm_state(s: Seq<char>, i: int, acc: Seq<Seq<char>>, cur: Seq<char>) -> (
    Seq<Seq<char>>,
    Seq<char>,
)
    decreases s.len() - i,
{
    if i < 0 || i >= s.len() {
        (acc, cur)
    } else if s[i] == '/' {
        norm_state(s, i + 1, norm_step(acc, cur), Seq::empty())
    } else {
        norm_state(s, i + 1, acc, cur.push(s[i]))
    }
}

proof fn lemma_norm_from_is_state(s: Seq<char>, i: int, acc: Seq<Seq<char>>, cur: Seq<char>)
    ensures
        norm_from(s, i, acc, cur) == norm_step(
            norm_state(s, i, acc, cur).0,
            norm_state(s, i, acc, cur).1,
        ),
    decreases s.len() - i,
{
    if 0 <= i && i < s.len() {
        if s[i] == '/' {
            lemma_norm_from_is_state(s, i + 1, norm_step(acc, cur), Seq::empty());
        } else {
            lemma_norm_from_is_state(s, i + 1, acc, cur.push(s[i]));
        }
    }
}

proof fn lemma_psegs_first(segs: Seq<Seq<char>>)
    requires
        segs.len() > 0,
    ensures
        path_str_segs(segs) == seq!['/'] + segs[0] + path_str_segs(segs.drop_first()),
    decreases segs.len(),
{
    if segs.len() == 1 {
        assert(segs.drop_last() =~= Seq::<Seq<char>>::empty());
        assert(segs.drop_first() =~= Seq::<Seq<char>>::empty());
        assert(path_str_segs(segs) =~= seq!['/'] + segs[0] + path_str_segs(segs.drop_first()));
    } else {
        let dl = segs.drop_last();
        lemma_psegs_first(dl);
        assert(segs.drop_first().drop_last() =~= dl.drop_first());
        assert(segs.drop_first().last() == segs.last());
        assert(segs.drop_first().len() > 0);
        assert(path_str_segs(segs.drop_first()) == path_str_segs(dl.drop_first()) + seq!['/']
            + segs.last());
        assert(path_str_segs(segs) =~= seq!['/'] + segs[0] + path_str_segs(segs.drop_first()));
    }
}

proof fn lemma_consume_seg(s: Seq<char>, i: int, acc: Seq<Seq<char>>, cur: Seq<char>, w: Seq<char>)
    requires
        0 <= i,
        i + w.len() <= s.len(),
        s.subrange(i, i + w.len()) == w,
        !w.contains('/'),
    ensures
        norm_state(s, i, acc, cur) == norm_state(s, i + w.len(), acc, cur + w),
    decreases w.len(),
{
    if w.len() == 0 {
        assert(cur + w =~= cur);
    } else {
        assert(s[i] == w[0]);
        assert(w[0] != '/') by {
            assert(w.contains('/') <== w[0] == '/');
        }
        let w2 = w.drop_first();
        assert(s.subrange(i + 1, i + 1 + w2.len()) =~= w2);
        assert(!w2.contains('/')) by {
            if w2.contains('/') {
                let k = choose|k: int| 0 <= k < w2.len() && w2[k] == '/';
                assert(w[k + 1] == '/');
            }
        }
        lemma_consume_seg(s, i + 1, acc, cur.push(s[i]), w2);
        assert(cur.push(s[i]) + w2 =~= cur + w);
    }
}

proof fn lemma_state_tail(a: Seq<char>, b: Seq<char>, i: int, acc: Seq<Seq<char>>, cur: Seq<char>)
    requires
        0 <= i <= b.len(),
    ensures
        norm_state(a + b, a.len() + i, acc, cur) == norm_state(b, i, acc, cur),
    decreases b.len() - i,
{
    if i < b.len() {
        assert((a + b)[a.len() + i] == b[i]);
        if b[i] == '/' {
            lemma_state_tail(a, b, i + 1, norm_step(acc, cur), Seq::empty());
        } else {
            lemma_state_tail(a, b, i + 1, acc, cur.push(b[i]));
        }
    }
}

proof fn lemma_norm_blocks(segs: Seq<Seq<char>>, acc: Seq<Seq<char>>, cur: Seq<char>)
    requires
        forall|i: int| 0 <= i < segs.len() ==> seg_ok(#[trigger] segs[i]),
    ensures
        norm_state(path_str_segs(segs), 0, acc, cur) == (if segs.len() == 0 {
            (acc, cur)
        } else {
            (norm_step(acc, cur) + segs.drop_last(), segs.last())
        }),
    decreases segs.len(),
{
    if segs.len() > 0 {
        let s0 = segs[0];
        let rest = segs.drop_first();
        let t2 = path_str_segs(rest);
        lemma_psegs_first(segs);
        let t = path_str_segs(segs);
        let head = seq!['/'] + s0;
        assert(t == head + t2);
        assert(t[0] == '/');
        assert(norm_state(t, 0, acc, cur) == norm_state(t, 1, norm_step(acc, cur), Seq::empty()));
        let acc1 = norm_step(acc, cur);
        assert(t.subrange(1, 1 + s0.len() as int) =~= s0);
        assert(seg_ok(s0));
        lemma_consume_seg(t, 1, acc1, Seq::empty(), s0);
        assert(Seq::<char>::empty() + s0 =~= s0);
        assert(norm_state(t, 0, acc, cur) == norm_state(t, head.len() as int, acc1, s0));
        lemma_state_tail(head, t2, 0, acc1, s0);
        assert(norm_state(t, 0, acc, cur) == norm_state(t2, 0, acc1, s0));
        assert(forall|i: int| 0 <= i < rest.len() ==> seg_ok(#[trigger] rest[i])) by {
            assert(forall|i: int| 0 <= i < rest.len() ==> rest[i] == segs[i + 1]);
        }
        lemma_norm_blocks(rest, acc1, s0);
        if rest.len() == 0 {
            assert(acc1 + segs.drop_last() =~= acc1);
        } else {
            assert(norm_step(acc1, s0) == acc1.push(s0));
            assert(acc1.push(s0) + rest.drop_last() =~= acc1 + segs.drop_last());
            assert(rest.last() == segs.last());
        }
    }
}

/// Printing a normalized path and reading the text back yields the very
/// same segments: persisted directory keys survive a save/load pair.
pub proof fn lemma_path_round_trip(segs: Seq<Seq<char>>)
    requires
        forall|i: int| 0 <= i < segs.len() ==> seg_ok(#[trigger] segs[i]),
    ensures
        normalize(path_str(segs)) == segs,
{
    if segs.len() == 0 {
        let t = seq!['/'];
        assert(norm_from(t, 0, Seq::empty(), Seq::empty()) == norm_from(
            t,
            1,
            norm_step(Seq::empty(), Seq::empty()),
            Seq::empty(),
        ));
        assert(normalize(path_str(segs)) =~= segs);
    } else {
        let t = path_str_segs(segs);
        lemma_norm_from_is_state(t, 0, Seq::empty(), Seq::empty());
        lemma_norm_blocks(segs, Seq::empty(), Seq::empty());
        let acc1 = norm_step(Seq::<Seq<char>>::empty(), Seq::<char>::empty());
        assert(acc1 + segs.drop_last() =~= segs.drop_last());
        assert(seg_ok(segs.last()));
        assert(norm_step(segs.drop_last(), segs.last()) == segs.drop_last().push(segs.last()));
        assert(segs.drop_last().push(segs.last()) =~= segs);
    }
}

/// An absolute directory path, held as its normalized segments
/// (the root directory has no segments).
pub struct DirPath {
    segs: Vec<String>,
}

impl View for DirPath {
    type V = Seq<Seq<char>>;

    closed spec fn view(&self) -> Seq<Seq<char>> {
        self.segs.deep_view()
    }
}

impl Clone for DirPath {
    /// The clone names the same directory: it has the same segments.
    fn clone(&self) -> (r: Self)
        ensures
            r@ == self@,
    {
        let mut segs: Vec<String> = Vec::new();
        let mut j: usize = 0;
        while j < self.segs.len()
            invariant
                j <= self.segs@.len(),
                segs.deep_view() =~= self@.take(j as int),
            decreases self.segs@.len() - j,
        {
            segs.push(self.segs[j].clone());
            proof {
                assert(segs.deep_view() =~= self@.take(j as int).push(self@[j as int]));
                assert(self@.take(j as int).push(self@[j as int]) =~= self@.take(j as int + 1));
            }
            j += 1;
        }
        proof {
            assert(self@.take(self@.len() as int) =~= self@);
        }
        DirPath { segs }
    }
}

fn is_dot_str(s: &String) -> (b: bool)
    ensures
        b == (s@ == seq!['.']),
{
    let r = s.as_str().unicode_len() == 1 && s.as_str().get_char(0) == '.';
    proof {
        if r {
            assert(s@ =~= seq!['.']);
        }
    }
    r
}

fn is_dotdot_str(s: &String) -> (b: bool)
    ensures
        b == (s@ == seq!['.', '.']),
{
    let r = s.as_str().unicode_len() == 2 && s.as_str().get_char(0) == '.' && s.as_str().get_char(
        1,
    ) == '.';
    proof {
        if r {
            assert(s@ =~= seq!['.', '.']);
        }
    }
    r
}

/// Folds the segment collected in `cur` into `segs` as `norm_step` says,
/// and resets `cur` to the empty segment.
fn flush_segment(segs: &mut Vec<String>, cur: &mut String)
    ensures
        final(segs).deep_view() == norm_step(old(segs).deep_view(), old(cur)@),
        final(cur)@ == Seq::<char>::empty(),
{
    let empty = cur.as_str().unicode_len() == 0;
    proof {
        if empty {
            assert(cur@ =~= Seq::<char>::empty());
        }
    }
    if empty || is_dot_str(cur) {
        // dropped
    } else if is_dotdot_str(cur) {
        if segs.len() > 0 {
            segs.pop();
            proof {
                assert(segs.deep_view() =~= old(segs).deep_view().drop_last());
            }
        }
    } else {
        let finished = cur.clone();
        segs.push(finished);
        proof {
            assert(segs.deep_view() =~= old(segs).deep_view().push(old(cur)@));
        }
    }
    let fresh = String::new();
    *cur = fresh;
}

impl DirPath {
    /// Every segment is well formed.
    pub open spec fn wf(&self) -> bool {
        forall|i: int| 0 <= i < self@.len() ==> seg_ok(#[trigger] self@[i])
    }

    /// Number of segments, i.e. the depth below the root.
    pub fn depth(&self) -> (n: usize)
        ensures
            n == self@.len(),
    {
        self.segs.len()
    }

    /// Parses `s` into normalized absolute form.
    pub fn parse(s: &str) -> (r: DirPath)
        ensures
            r@ == normalize(s@),
            r.wf(),
    {
        let n = s.unicode_len();
        let mut segs: Vec<String> = Vec::new();
        let mut cur: String = String::new();
        let mut i: usize = 0;
        proof {
            assert(segs.deep_view() =~= Seq::<Seq<char>>::empty());
        }
        while i < n
            invariant
                n == s@.len(),
                i <= n,
                norm_from(s@, i as int, segs.deep_view(), cur@) == normalize(s@),
                forall|j: int|
                    0 <= j < segs.deep_view().len() ==> seg_ok(#[trigger] segs.deep_view()[j]),
                !cur@.contains('/'),
            decreases n - i,
        {
            let c = s.get_char(i);
            if c == '/' {
                proof {
                    lemma_norm_step_wf(segs.deep_view(), cur@);
                    assert(norm_from(s@, i as int, segs.deep_view(), cur@) == norm_from(
                        s@,
                        i as int + 1,
                        norm_step(segs.deep_view(), cur@),
                        Seq::empty(),
                    ));
                }
                flush_segment(&mut segs, &mut cur);
            } else {
                proof {
                    lemma_push_no_sep(cur@, c);
                    assert(norm_from(s@, i as int, segs.deep_view(), cur@) == norm_from(
                        s@,
                        i as int + 1,
                        segs.deep_view(),
                        cur@.push(s@[i as int]),
                    ));
                }
                push_char(&mut cur, c);
            }
            i += 1;
        }
        proof {
            assert(norm_from(s@, i as int, segs.deep_view(), cur@) == norm_step(
                segs.deep_view(),
                cur@,
            ));
            lemma_norm_step_wf(segs.deep_view(), cur@);
        }
        flush_segment(&mut segs, &mut cur);
        DirPath { segs }
    }

    /// Whether this path equals the first `depth` segments of `other`.
    pub fn matches_prefix(&self, other: &DirPath, depth: usize) -> (b: bool)
        requires
            depth <= other@.len(),
        ensures
            b == (self@ == other@.take(depth as int)),
    {
        if self.segs.len() != depth {
            proof {
                assert(self@.len() != other@.take(depth as int).len());
            }
            return false;
        }
        let mut j: usize = 0;
        while j < depth
            invariant
                j <= depth,
                depth <= other@.len(),
                self@.len() == depth,
                self.segs@.len() == depth,
                other.segs@.len() == other@.len(),
                forall|k: int| 0 <= k < j ==> self@[k] == other@[k],
            decreases depth - j,
        {
            let eq = self.segs[j].eq(&other.segs[j]);
            if !eq {
                proof {
                    assert(self@[j as int] != other@[j as int]);
                    assert(other@.take(depth as int)[j as int] == other@[j as int]);
                }
                return false;
            }
            j += 1;
        }
        proof {
            assert(self@ =~= other@.take(depth as int));
        }
        true
    }

    /// The textual form of the path: `/` for the root, otherwise each
    /// segment preceded by `/`.
    pub fn to_string(&self) -> (r: String)
        ensures
            r@ == path_str(self@),
    {
        if self.segs.len() == 0 {
            let r = String::from_str("/");
            proof {
                reveal_strlit("/");
                assert(r@ =~= path_str(self@));
            }
            return r;
        }
        let mut out = String::new();
        let mut j: usize = 0;
        while j < self.segs.len()
            invariant
                j <= self.segs@.len(),
                self@.len() == self.segs@.len(),
                out@ == path_str_segs(self@.take(j as int)),
            decreases self.segs@.len() - j,
        {
            out.append("/");
            out.append(self.segs[j].as_str());
            proof {
                reveal_strlit("/");
                assert(self@.take(j as int + 1).drop_last() =~= self@.take(j as int));
                assert(self@.take(j as int + 1).last() == self@[j as int]);
                assert(out@ =~= path_str_segs(self@.take(j as int + 1)));
            }
            j += 1;
        }
        proof {
            assert(self@.take(self@.len() as int) =~= self@);
        }
        out
    }
}

} // verus!
