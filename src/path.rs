//! Absolute locations in the remote filesystem and the algebra used to move
//! between them.
use vstd::prelude::*;

verus! {

/// `s` without any of its leading '/' characters.
pub open spec fn strip_leading_slashes(s: Seq<char>) -> Seq<char>
    decreases s.len(),
{
    if s.len() > 0 && s[0] == '/' {
        strip_leading_slashes(s.drop_first())
    } else {
        s
    }
}

/// The absolute form of `raw`: exactly one leading '/', then `raw` without
/// its own leading slashes.
pub open spec fn absolute(raw: Seq<char>) -> Seq<char> {
    seq!['/'] + strip_leading_slashes(raw)
}

/// Index of the last '/' in `p`, or -1 when there is none.
pub open spec fn last_slash(p: Seq<char>) -> int
    decreases p.len(),
{
    if p.len() == 0 {
        -1
    } else if p.last() == '/' {
        p.len() - 1
    } else {
        last_slash(p.drop_last())
    }
}

/// `p` with its last '/'-delimited component removed. A path with no '/' at
/// all has the root as its parent.
pub open spec fn parent_of(p: Seq<char>) -> Seq<char> {
    if last_slash(p) < 0 {
        seq!['/']
    } else {
        p.subrange(0, last_slash(p))
    }
}

/// The working path after one segment of a relative navigation.
pub open spec fn apply_segment(path: Seq<char>, seg: Seq<char>) -> Seq<char> {
    if seg == seq!['.', '.'] {
        parent_of(path)
    } else if seg.len() == 0 || seg == seq!['.'] {
        path
    } else if path.len() > 0 && path.last() == '/' {
        path + seg
    } else {
        path + seq!['/'] + seg
    }
}

/// Splits `rest` on '/' and folds its segments, left to right, onto `path`;
/// `seg` is the part of the current segment that was already read.
pub open spec fn walk(path: Seq<char>, seg: Seq<char>, rest: Seq<char>) -> Seq<char>
    decreases rest.len(),
{
    if rest.len() == 0 {
        apply_segment(path, seg)
    } else if rest[0] == '/' {
        walk(apply_segment(path, seg), Seq::empty(), rest.drop_first())
    } else {
        walk(path, seg.push(rest[0]), rest.drop_first())
    }
}

/// Where navigating from `current` by `target` leads: an absolute target
/// replaces the location, a relative one is folded onto it segment by segment.
pub open spec fn navigated(current: Seq<char>, target: Seq<char>) -> Seq<char> {
    if target.len() > 0 && target[0] == '/' {
        absolute(target)
    } else {
        absolute(walk(current, Seq::empty(), target))
    }
}

/// Number of '/' characters in `p`.
pub open spec fn slashes(p: Seq<char>) -> nat
    decreases p.len(),
{
    if p.len() == 0 {
        0
    } else {
        slashes(p.drop_last()) + if p.last() == '/' {
            1nat
        } else {
            0nat
        }
    }
}

/// `p` is empty or starts with '/'.
pub open spec fn rooted(p: Seq<char>) -> bool {
    p.len() == 0 || p[0] == '/'
}

/// The relative navigation "..", "../..", ... with `k` parent steps.
pub open spec fn parent_steps(k: nat) -> Seq<char>
    decreases k,
{
    if k <= 1 {
        seq!['.', '.']
    } else {
        seq!['.', '.', '/'] + parent_steps((k - 1) as nat)
    }
}

/// `p` after `n` parent steps.
pub open spec fn parents(p: Seq<char>, n: nat) -> Seq<char>
    decreases n,
{
    if n == 0 {
        p
    } else {
        parents(parent_of(p), (n - 1) as nat)
    }
}

proof fn lemma_last_slash_bounds(p: Seq<char>)
    ensures
        -1 <= last_slash(p) < p.len(),
        last_slash(p) >= 0 ==> p[last_slash(p)] == '/',
        last_slash(p) < 0 <==> slashes(p) == 0,
        last_slash(p) >= 0 ==> slashes(p.subrange(0, last_slash(p))) + 1 == slashes(p),
        forall|i: int| 0 <= i < p.len() && p[i] == '/' ==> i <= last_slash(p),
    decreases p.len(),
{
    if p.len() > 0 {
        let q = p.drop_last();
        lemma_last_slash_bounds(q);
        if p.last() == '/' {
            assert(p.subrange(0, p.len() - 1) =~= q);
        } else {
            if last_slash(q) >= 0 {
                assert(q.subrange(0, last_slash(q)) =~= p.subrange(0, last_slash(q)));
            }
            assert forall|i: int| 0 <= i < p.len() && p[i] == '/' implies i <= last_slash(p) by {
                if i < p.len() - 1 {
                    assert(q[i] == p[i]);
                }
            }
        }
    }
}

proof fn lemma_parent_rooted(p: Seq<char>)
    requires
        rooted(p),
    ensures
        rooted(parent_of(p)),
        slashes(p) > 0 ==> slashes(parent_of(p)) + 1 == slashes(p),
        slashes(p) == 0 ==> p.len() == 0 && parent_of(p) == seq!['/'],
{
    lemma_last_slash_bounds(p);
    if p.len() > 0 {
        assert(0 <= last_slash(p));
    }
}

proof fn lemma_parents_of_root(p: Seq<char>, n: nat)
    requires
        p == Seq::<char>::empty() || p == seq!['/'],
    ensures
        parents(p, n) == Seq::<char>::empty() || parents(p, n) == seq!['/'],
    decreases n,
{
    if n > 0 {
        lemma_last_slash_bounds(p);
        lemma_last_slash_bounds(seq!['/']);
        if p == seq!['/'] {
            assert(last_slash(p) == 0);
            assert(parent_of(p) =~= Seq::<char>::empty());
        }
        lemma_parents_of_root(parent_of(p), (n - 1) as nat);
    }
}

proof fn lemma_parents_reach_root(p: Seq<char>, n: nat)
    requires
        rooted(p),
        n >= slashes(p),
    ensures
        parents(p, n) == Seq::<char>::empty() || parents(p, n) == seq!['/'],
    decreases n,
{
    lemma_parent_rooted(p);
    if slashes(p) == 0 {
        assert(p =~= Seq::<char>::empty());
        lemma_parents_of_root(p, n);
    } else {
        lemma_parents_reach_root(parent_of(p), (n - 1) as nat);
    }
}

proof fn lemma_walk_parent_steps(p: Seq<char>, k: nat)
    requires
        k >= 1,
    ensures
        walk(p, Seq::empty(), parent_steps(k)) == parents(p, k),
    decreases k,
{
    let dd = seq!['.', '.'];
    let e = Seq::<char>::empty();
    assert(e.push('.').push('.') =~= dd);
    let t = parent_steps(k);
    if k == 1 {
        assert(t =~= dd);
        assert(t.drop_first() =~= seq!['.']);
        assert(t.drop_first().drop_first() =~= e);
        assert(walk(p, e, t) == walk(p, e.push('.'), t.drop_first()));
        assert(walk(p, e.push('.'), t.drop_first()) == walk(
            p,
            e.push('.').push('.'),
            t.drop_first().drop_first(),
        ));
        assert(walk(p, dd, e) == parent_of(p));
        assert(parents(parent_of(p), 0) == parent_of(p));
    } else {
        let rest = parent_steps((k - 1) as nat);
        assert(t =~= seq!['.', '.', '/'] + rest);
        assert(t[0] == '.');
        assert(t.drop_first() =~= seq!['.', '/'] + rest);
        assert(t.drop_first()[0] == '.');
        assert(t.drop_first().drop_first() =~= seq!['/'] + rest);
        assert(t.drop_first().drop_first()[0] == '/');
        assert(t.drop_first().drop_first().drop_first() =~= rest);
        assert(walk(p, e, t) == walk(p, e.push('.'), t.drop_first()));
        assert(walk(p, e.push('.'), t.drop_first()) == walk(
            p,
            e.push('.').push('.'),
            t.drop_first().drop_first(),
        ));
        assert(walk(p, dd, t.drop_first().drop_first()) == walk(parent_of(p), e, rest));
        lemma_walk_parent_steps(parent_of(p), (k - 1) as nat);
    }
}

/// Going up at least as many times as the path has levels ends at the root,
/// "/", however many more times it goes up.
pub proof fn lemma_navigate_above_root(current: Seq<char>, k: nat)
    requires
        rooted(current),
        k >= 1,
        k >= slashes(current),
    ensures
        navigated(current, parent_steps(k)) == seq!['/'],
{
    let t = parent_steps(k);
    if k == 1 {
        assert(t =~= seq!['.', '.']);
    } else {
        assert(t =~= seq!['.', '.', '/'] + parent_steps((k - 1) as nat));
    }
    assert(t[0] == '.');
    lemma_walk_parent_steps(current, k);
    lemma_parents_reach_root(current, k);
    let w = walk(current, Seq::empty(), t);
    let e = Seq::<char>::empty();
    assert(strip_leading_slashes(e) == e);
    if w == seq!['/'] {
        assert(w.drop_first() =~= e);
        assert(strip_leading_slashes(w) == strip_leading_slashes(w.drop_first()));
    }
    assert(absolute(w) =~= seq!['/']);
}

/// A path to a remote file or directory; it always starts with '/'.
pub struct RemotePath(pub String);

impl View for RemotePath {
    type V = Seq<char>;

    open spec fn view(&self) -> Seq<char> {
        self.0@
    }
}

impl RemotePath {
    /// Every path built by `new` or `navigate` is absolute.
    pub open spec fn wf(&self) -> bool {
        self@.len() > 0 && self@[0] == '/'
    }

    pub fn new(path: &str) -> (r: RemotePath)
        ensures
            r@ == absolute(path@),
            r.wf(),
    {
        let len = path.unicode_len();
        let mut k: usize = 0;
        proof {
            assert(path@.subrange(0, len as int) =~= path@);
        }
        while k < len && path.get_char(k) == '/'
            invariant
                k <= len,
                len == path@.len(),
                strip_leading_slashes(path@) == strip_leading_slashes(
                    path@.subrange(k as int, len as int),
                ),
            decreases len - k,
        {
            proof {
                assert(path@.subrange(k as int, len as int).drop_first() =~= path@.subrange(
                    k + 1,
                    len as int,
                ));
            }
            k = k + 1;
        }
        let rest = path.substring_char(k, len);
        proof {
            reveal_strlit("/");
        }
        let mut s = String::from_str("/");
        s.append(rest);
        proof {
            assert(s@ =~= absolute(path@));
        }
        RemotePath(s)
    }

    /// Navigates to a new path. A target starting with '/' replaces the
    /// current path; any other is read relative to it, segment by segment:
    /// ".." moves to the parent, "." and empty segments change nothing, and
    /// any other segment is appended. Going above the root yields "/".
    pub fn navigate(&self, navigation: &str) -> (r: RemotePath)
        ensures
            r@ == navigated(self@, navigation@),
            r.wf(),
    {
        let len = navigation.unicode_len();
        if len > 0 && navigation.get_char(0) == '/' {
            return RemotePath::new(navigation);
        }
        let mut working = self.0.clone();
        let mut start: usize = 0;
        let mut i: usize = 0;
        proof {
            assert(navigation@.subrange(0, 0) =~= Seq::<char>::empty());
            assert(navigation@.subrange(0, len as int) =~= navigation@);
        }
        while i < len
            invariant
                start <= i <= len,
                len == navigation@.len(),
                walk(self@, Seq::empty(), navigation@) == walk(
                    working@,
                    navigation@.subrange(start as int, i as int),
                    navigation@.subrange(i as int, len as int),
                ),
            decreases len - i,
        {
            let c = navigation.get_char(i);
            let ghost t = navigation@;
            proof {
                assert(t.subrange(i as int, len as int).drop_first() =~= t.subrange(
                    i + 1,
                    len as int,
                ));
                assert(t.subrange(i as int, len as int)[0] == c);
            }
            if c == '/' {
                let seg = navigation.substring_char(start, i);
                working = apply_segment_exec(working, seg);
                start = i + 1;
                proof {
                    assert(t.subrange(start as int, i + 1) =~= Seq::<char>::empty());
                }
            } else {
                proof {
                    assert(t.subrange(start as int, i as int).push(c) =~= t.subrange(
                        start as int,
                        i + 1,
                    ));
                }
            }
            i = i + 1;
        }
        let seg = navigation.substring_char(start, len);
        working = apply_segment_exec(working, seg);
        proof {
            assert(navigation@.subrange(len as int, len as int) =~= Seq::<char>::empty());
        }
        RemotePath::new(working.as_str())
    }

    /// The path as text.
    pub fn to_string(&self) -> (r: String)
        ensures
            r@ == self@,
    {
        self.0.clone()
    }
}

/// Executable form of `apply_segment`.
fn apply_segment_exec(path: String, seg: &str) -> (r: String)
    ensures
        r@ == apply_segment(path@, seg@),
{
    let n = seg.unicode_len();
    proof {
        assert(seq!['.', '.'].len() == 2 && seq!['.', '.'][0] == '.' && seq!['.', '.'][1] == '.');
        assert(seq!['.'].len() == 1 && seq!['.'][0] == '.');
    }
    if n == 2 && seg.get_char(0) == '.' && seg.get_char(1) == '.' {
        proof {
            assert(seg@ =~= seq!['.', '.']);
        }
        parent_exec(path)
    } else if n == 0 || (n == 1 && seg.get_char(0) == '.') {
        proof {
            if n == 1 {
                assert(seg@ =~= seq!['.']);
            }
        }
        path
    } else {
        proof {
            reveal_strlit("/");
        }
        let plen = path.as_str().unicode_len();
        let ends_with_slash = plen > 0 && path.as_str().get_char(plen - 1) == '/';
        let mut out = path;
        if !ends_with_slash {
            out.append("/");
        }
        out.append(seg);
        proof {
            if !ends_with_slash {
                assert(out@ =~= path@ + seq!['/'] + seg@);
            }
        }
        out
    }
}

/// Executable form of `parent_of`.
fn parent_exec(path: String) -> (r: String)
    ensures
        r@ == parent_of(path@),
{
    let s = path.as_str();
    let len = s.unicode_len();
    let mut j: usize = len;
    proof {
        assert(s@.subrange(0, len as int) =~= s@);
    }
    while j > 0 && s.get_char(j - 1) != '/'
        invariant
            j <= len,
            len == s@.len(),
            last_slash(s@) == last_slash(s@.subrange(0, j as int)),
        decreases j,
    {
        proof {
            assert(s@.subrange(0, j as int).drop_last() =~= s@.subrange(0, j - 1));
        }
        j = j - 1;
    }
    proof {
        reveal_strlit("/");
    }
    if j == 0 {
        proof {
            assert(s@.subrange(0, 0) =~= Seq::<char>::empty());
        }
        String::from_str("/")
    } else {
        String::from_str(s.substring_char(0, j - 1))
    }
}

} // verus!
