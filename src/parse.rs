//! The text form of a descriptor: `tr(KEY)` or `tr(KEY,TREE)`, where
//! `TREE` is a script or `{TREE,TREE}`.
use crate::descriptor::{opt_height, Tr};
use crate::error::{Error, ParseError};
use crate::tree::{tree_height, TapTree, MAX_NODE_COUNT};
use vstd::prelude::*;
use vstd::string::StringExecFns;

verus! {

/// The text of a tree whose leaves are script texts.
pub open spec fn tree_text(t: TapTree<String>) -> Seq<char>
    decreases t,
{
    match t {
        TapTree::Tree { left, right, .. } => seq!['{'] + tree_text(*left) + seq![','] + tree_text(
            *right,
        ) + seq!['}'],
        TapTree::Leaf(l) => (*l)@,
    }
}

/// The canonical text of a descriptor with internal key `key` and tree `tree`.
pub open spec fn desc_text(key: Seq<char>, tree: Option<TapTree<String>>) -> Seq<char> {
    match tree {
        Some(t) => seq!['t', 'r', '('] + key + seq![','] + tree_text(t) + seq![')'],
        None => seq!['t', 'r', '('] + key + seq![')'],
    }
}

/// An entry of the parser's reduction stack.
enum Frame {
    /// An opening brace at this position, whose two subtrees are pending.
    Open(usize),
    /// A finished subtree and the positions of its text.
    Sub(TapTree<String>, usize, usize),
}

/// Each frame lies in `s[lo..hi]`: an open brace, or a well-formed subtree
/// that prints as its text.
spec fn frame_ok(f: Frame, s: Seq<char>, lo: int, hi: int) -> bool {
    match f {
        Frame::Open(o) => lo <= o < hi && s[o as int] == '{',
        Frame::Sub(t, a, b) => {
            &&& lo <= a < b <= hi
            &&& t.wf()
            &&& tree_ok(t)
            &&& tree_height(t) <= b - a
            &&& tree_text(t) == s.subrange(a as int, b as int)
        },
    }
}

/// A character that ends a key.
pub open spec fn is_key_end_spec(c: char) -> bool {
    c == ',' || c == '(' || c == ')' || c == '{' || c == '}'
}

/// Whether a character ends a key.
fn is_key_end(c: char) -> (r: bool)
    ensures
        r == (c == ',' || c == '(' || c == ')' || c == '{' || c == '}'),
{
    c == ',' || c == '(' || c == ')' || c == '{' || c == '}'
}

/// The parenthesis depth at the end of `s`.
pub open spec fn paren_depth(s: Seq<char>) -> int
    decreases s.len(),
{
    if s.len() == 0 {
        0
    } else {
        paren_depth(s.drop_last()) + if s.last() == '(' {
            1int
        } else if s.last() == ')' {
            -1int
        } else {
            0int
        }
    }
}

/// `s` can stand as a script leaf: it is not empty, holds no brace, closes
/// every parenthesis it opens and none that it did not, and holds a comma only
/// inside parentheses.
pub open spec fn leaf_ok(s: Seq<char>) -> bool {
    &&& s.len() > 0
    &&& paren_depth(s) == 0
    &&& leaf_chars_ok(s)
}

/// Every character of `s` may stand where it is in a script leaf: no brace,
/// and a comma or closing parenthesis only inside parentheses.
pub open spec fn leaf_chars_ok(s: Seq<char>) -> bool {
    forall|i: int|
        0 <= i < s.len() ==> {
            &&& #[trigger] s[i] != '{'
            &&& s[i] != '}'
            &&& (s[i] == ',' || s[i] == ')') ==> paren_depth(s.take(i)) > 0
        }
}

/// `k` can stand as an internal key: it is not empty and holds no comma,
/// parenthesis or brace.
pub open spec fn key_ok(k: Seq<char>) -> bool {
    &&& k.len() > 0
    &&& forall|i: int|
        0 <= i < k.len() ==> {
            &&& #[trigger] k[i] != ','
            &&& k[i] != '('
            &&& k[i] != ')'
            &&& k[i] != '{'
            &&& k[i] != '}'
        }
}

/// `s[p..m]` is a script leaf that ends where a leaf ends: at `end`, or
/// before a `,` or a `}`.
pub open spec fn leaf_ends_at(s: Seq<char>, p: int, end: int, m: int) -> bool {
    &&& p < m <= end
    &&& leaf_ok(s.subrange(p, m))
    &&& (m == end || s[m] == ',' || s[m] == '}')
}

/// The end of the script starting at `p`, which stops before a `,` or `}`
/// outside its parentheses, or at `end`.
fn scan_leaf(s: &str, p: usize, end: usize) -> (r: Result<usize, ParseError>)
    requires
        s.is_ascii(),
        p < end <= s@.len(),
    ensures
        r matches Ok(j) ==> p < j <= end && leaf_ends_at(s@, p as int, end as int, j as int),
        forall|m: int|
            #[trigger] leaf_ends_at(s@, p as int, end as int, m) ==> r == Ok::<usize, ParseError>(
                m as usize,
            ),
{
    let mut j: usize = p;
    let mut depth: usize = 0;
    while j < end
        invariant
            p <= j <= end <= s@.len(),
            depth <= j - p,
            s.is_ascii(),
            depth as int == paren_depth(s@.subrange(p as int, j as int)),
            leaf_chars_ok(s@.subrange(p as int, j as int)),
            forall|m: int| #[trigger] leaf_ends_at(s@, p as int, end as int, m) ==> j <= m,
        ensures
            p <= j <= end,
            depth as int == paren_depth(s@.subrange(p as int, j as int)),
            leaf_chars_ok(s@.subrange(p as int, j as int)),
            j == end || (depth == 0 && (s@[j as int] == ',' || s@[j as int] == '}')),
            forall|m: int| #[trigger] leaf_ends_at(s@, p as int, end as int, m) ==> m == j,
        decreases end - j,
    {
        let c = s.get_ascii(j) as char;
        let ghost sj = s@.subrange(p as int, j as int);
        proof {
            assert(s@.subrange(p as int, j + 1).drop_last() =~= sj);
            assert forall|m: int| #[trigger] leaf_ends_at(s@, p as int, end as int, m) && j < m implies {
                let l = s@.subrange(p as int, m);
                &&& l[j - p] == c
                &&& l.take(j - p) == sj
            } by {
                assert(s@.subrange(p as int, m).take(j - p) =~= sj);
            }
        }
        if c == '{' || c == '}' && depth > 0 {
            proof {
                assert forall|m: int| #[trigger] leaf_ends_at(s@, p as int, end as int, m) implies false by {
                    if j < m {
                        let l = s@.subrange(p as int, m);
                        assert(l[j - p] != '{' && l[j - p] != '}');
                    }
                }
            }
            if j > p && depth == 0 {
                return Err(ParseError::BranchName);
            }
            return Err(ParseError::BadLeaf);
        }
        if depth == 0 && (c == ',' || c == '}') {
            proof {
                assert forall|m: int| #[trigger] leaf_ends_at(s@, p as int, end as int, m) implies m == j by {
                    if j < m {
                        let l = s@.subrange(p as int, m);
                        assert(l[j - p] == c);
                        assert(l[j - p] != '}');
                        assert(paren_depth(l.take(j - p)) > 0);
                    }
                }
            }
            break;
        }
        if c == '(' {
            depth = depth + 1;
        } else if c == ')' {
            if depth == 0 {
                proof {
                    assert forall|m: int| #[trigger] leaf_ends_at(s@, p as int, end as int, m) implies false by {
                        if j < m {
                            let l = s@.subrange(p as int, m);
                            assert(paren_depth(l.take(j - p)) > 0);
                        }
                    }
                }
                return Err(ParseError::BadLeaf);
            }
            depth = depth - 1;
        }
        proof {
            assert forall|m: int| #[trigger] leaf_ends_at(s@, p as int, end as int, m) implies j + 1 <= m by {
                if m == j {
                    assert(s@.subrange(p as int, m) == sj);
                }
            }
            let nj = s@.subrange(p as int, j + 1);
            assert forall|i: int| 0 <= i < nj.len() implies {
                &&& #[trigger] nj[i] != '{'
                &&& nj[i] != '}'
                &&& (nj[i] == ',' || nj[i] == ')') ==> paren_depth(nj.take(i)) > 0
            } by {
                if i < j - p {
                    assert(nj[i] == sj[i]);
                    assert(nj.take(i) =~= sj.take(i));
                } else {
                    assert(nj[i] == c);
                    assert(nj.take(i) =~= sj);
                }
            }
        }
        j = j + 1;
    }
    proof {
        assert forall|m: int| #[trigger] leaf_ends_at(s@, p as int, end as int, m) implies m == j
            && j > p && depth == 0 by {
            assert(s@.subrange(p as int, m) == s@.subrange(p as int, j as int));
        }
    }
    if j == p || depth != 0 {
        return Err(ParseError::BadLeaf);
    }
    proof {
        assert(leaf_ok(s@.subrange(p as int, j as int)));
    }
    Ok(j)
}

/// Every leaf of `t` can stand as a script leaf.
pub open spec fn tree_ok(t: TapTree<String>) -> bool
    decreases t,
{
    match t {
        TapTree::Tree { left, right, .. } => tree_ok(*left) && tree_ok(*right),
        TapTree::Leaf(l) => leaf_ok((*l)@),
    }
}

/// `u` and `t` have the same shape, cached heights and leaf texts.
pub open spec fn same_tree(u: TapTree<String>, t: TapTree<String>) -> bool
    decreases t,
{
    match (u, t) {
        (TapTree::Tree { left: l1, right: r1, height: h1 }, TapTree::Tree { left: l2, right: r2, height: h2 }) => {
            h1 == h2 && same_tree(*l1, *l2) && same_tree(*r1, *r2)
        },
        (TapTree::Leaf(a), TapTree::Leaf(b)) => (*a)@ == (*b)@,
        _ => false,
    }
}

proof fn lemma_same_tree_height(u: &TapTree<String>, t: &TapTree<String>)
    requires
        same_tree(*u, *t),
    ensures
        tree_height(*u) == tree_height(*t),
    decreases *t,
{
    if let TapTree::Tree { left: l1, right: r1, .. } = u {
        if let TapTree::Tree { left: l2, right: r2, .. } = t {
            lemma_same_tree_height(&**l1, &**l2);
            lemma_same_tree_height(&**r1, &**r2);
        }
    }
}

proof fn lemma_text_nonempty(t: &TapTree<String>)
    requires
        tree_ok(*t),
    ensures
        tree_text(*t).len() > 0,
{
}

/// The left subtree of a branch.
spec fn left_of(t: TapTree<String>) -> TapTree<String> {
    match t {
        TapTree::Tree { left, .. } => *left,
        TapTree::Leaf(_) => t,
    }
}

/// The right subtree of a branch.
spec fn right_of(t: TapTree<String>) -> TapTree<String> {
    match t {
        TapTree::Tree { right, .. } => *right,
        TapTree::Leaf(_) => t,
    }
}

/// The length of the text of `t`.
spec fn text_len(t: TapTree<String>) -> int {
    tree_text(t).len() as int
}

/// The positions between tokens that the parser stops at, while it reads the
/// text of `t` placed at `o`.
spec fn boundary(t: TapTree<String>, o: int, p: int) -> bool
    decreases t,
{
    p == o || p == o + text_len(t) || match t {
        TapTree::Tree { left, right, .. } => {
            let c = o + 1 + text_len(*left);
            (o + 1 <= p <= c && boundary(*left, o + 1, p)) || (c + 1 <= p < o + text_len(t)
                && boundary(*right, c + 1, p))
        },
        TapTree::Leaf(_) => false,
    }
}

/// The reduction stack the parser holds at `p` while it reads the text of `t`
/// placed at `o`.
spec fn frames_at(t: TapTree<String>, o: int, p: int) -> Seq<Frame>
    decreases t,
{
    if p == o {
        Seq::empty()
    } else if p == o + text_len(t) {
        seq![Frame::Sub(t, o as usize, p as usize)]
    } else {
        match t {
            TapTree::Tree { left, right, .. } => {
                let c = o + 1 + text_len(*left);
                if p <= c {
                    seq![Frame::Open(o as usize)] + frames_at(*left, o + 1, p)
                } else {
                    seq![Frame::Open(o as usize), Frame::Sub(*left, (o + 1) as usize, c as usize)]
                        + frames_at(*right, c + 1, p)
                }
            },
            TapTree::Leaf(_) => Seq::empty(),
        }
    }
}

/// A frame the parser holds stands for the expected frame `g`.
spec fn frame_like(f: Frame, g: Frame) -> bool {
    match (f, g) {
        (Frame::Open(a), Frame::Open(b)) => a == b,
        (Frame::Sub(u, a, b), Frame::Sub(t, c, d)) => a == c && b == d && same_tree(u, t),
        _ => false,
    }
}

spec fn frames_like(fs: Seq<Frame>, gs: Seq<Frame>) -> bool {
    &&& fs.len() == gs.len()
    &&& forall|i: int| 0 <= i < fs.len() ==> frame_like(#[trigger] fs[i], gs[i])
}

/// `after` is `before` with its last three frames, an opening brace at `ob`
/// and two subtrees separated by the comma at `le` and closed at `p`, reduced
/// to one branch.
spec fn closes(s: Seq<char>, before: Seq<Frame>, after: Seq<Frame>, p: int) -> bool {
    let n = before.len() as int;
    &&& n >= 3
    &&& after.len() == n - 2
    &&& after.take(n - 3) == before.take(n - 3)
    &&& before[n - 3] matches Frame::Open(ob)
    &&& before[n - 2] matches Frame::Sub(l, ls, le)
    &&& before[n - 1] matches Frame::Sub(r, rs, re)
    &&& ls == ob + 1 && rs == le + 1 && re == p && s[le as int] == ','
    &&& after[n - 3] matches Frame::Sub(t, a, b)
    &&& a == ob && b == p + 1 && t.wf()
    &&& t matches TapTree::Tree { left, right, .. }
    &&& *left == l && *right == r
}

/// `after` is `before` with a leaf whose text is `s[p..m]` pushed on it.
spec fn pushes_leaf(s: Seq<char>, before: Seq<Frame>, after: Seq<Frame>, p: int, m: int) -> bool {
    &&& after.len() == before.len() + 1
    &&& after.drop_last() == before
    &&& after.last() matches Frame::Sub(t, a, b)
    &&& a == p && b == m
    &&& t matches TapTree::Leaf(l)
    &&& (*l)@ == s.subrange(p, m)
}

proof fn lemma_closes_prefix(s: Seq<char>, x: Seq<Frame>, before: Seq<Frame>, after: Seq<Frame>, p: int)
    requires
        closes(s, before, after, p),
    ensures
        closes(s, x + before, x + after, p),
{
    let n = before.len() as int;
    assert((x + before).take(x.len() + n - 3) =~= x + before.take(n - 3));
    assert((x + after).take(x.len() + n - 3) =~= x + after.take(n - 3));
    assert((x + before)[x.len() + n - 3] == before[n - 3]);
    assert((x + before)[x.len() + n - 2] == before[n - 2]);
    assert((x + before)[x.len() + n - 1] == before[n - 1]);
    assert((x + after)[x.len() + n - 3] == after[n - 3]);
}

proof fn lemma_pushes_prefix(s: Seq<char>, x: Seq<Frame>, before: Seq<Frame>, after: Seq<Frame>, p: int, m: int)
    requires
        pushes_leaf(s, before, after, p, m),
    ensures
        pushes_leaf(s, x + before, x + after, p, m),
{
    assert((x + after).drop_last() =~= x + after.drop_last());
}

/// What the parser meets at a position `p` where it stops inside the text of
/// `t` placed at `o`, and where it stops next; the text of `t` is followed by
/// `end`, a `,` or a `}`.
proof fn lemma_step(t: TapTree<String>, o: int, p: int, s: Seq<char>, end: int) -> (np: int)
    requires
        tree_ok(t),
        t.wf(),
        0 <= o,
        o + text_len(t) <= end <= s.len(),
        end <= usize::MAX,
        s.subrange(o, o + text_len(t)) == tree_text(t),
        o + text_len(t) == end || s[o + text_len(t)] == ',' || s[o + text_len(t)] == '}',
        boundary(t, o, p),
        o <= p < o + text_len(t),
    ensures
        p < np <= o + text_len(t),
        boundary(t, o, np),
        s[p] == '{' ==> np == p + 1 && frames_at(t, o, np) == frames_at(t, o, p).push(
            Frame::Open(p as usize),
        ),
        s[p] == ',' ==> np == p + 1 && frames_at(t, o, np) == frames_at(t, o, p),
        s[p] == '}' ==> np == p + 1 && closes(s, frames_at(t, o, p), frames_at(t, o, np), p),
        s[p] != '{' && s[p] != ',' && s[p] != '}' ==> leaf_ends_at(s, p, end, np) && pushes_leaf(
            s,
            frames_at(t, o, p),
            frames_at(t, o, np),
            p,
            np,
        ),
    decreases t,
{
    lemma_text_nonempty(&t);
    let e = o + text_len(t);
    if let TapTree::Leaf(l) = t {
        {
            assert(p == o);
            assert(s[p] == tree_text(t)[0]);
            assert(tree_text(t).take(0) =~= Seq::<char>::empty());
            assert(s.subrange(p, e) == (*l)@);
            let fa = frames_at(t, o, e);
            assert(fa == seq![Frame::Sub(t, o as usize, e as usize)]);
            assert(fa.drop_last() =~= frames_at(t, o, p));
            assert(s[p] != '{' && s[p] != ',' && s[p] != '}');
            assert(leaf_ends_at(s, p, end, e));
            assert(pushes_leaf(s, frames_at(t, o, p), fa, p, e));
            e
        }
    } else {
        {
            let ghost lt = left_of(t);
            let ghost rt = right_of(t);
            assert(t matches TapTree::Tree { left, right, .. } && lt == lt && rt == rt);
            lemma_text_nonempty(&lt);
            lemma_text_nonempty(&rt);
            let ghost tl = tree_text(lt);
            let ghost tr = tree_text(rt);
            let c = o + 1 + tl.len();
            assert(tree_text(t) == seq!['{'] + tl + seq![','] + tr + seq!['}']);
            assert(e == c + 1 + tr.len() + 1);
            assert(s[o] == tree_text(t)[0]);
            assert(s[c] == tree_text(t)[c - o]);
            assert(s[e - 1] == tree_text(t)[e - 1 - o]);
            assert(s.subrange(o + 1, c) =~= tl) by {
                assert forall|i: int| 0 <= i < tl.len() implies s.subrange(o + 1, c)[i] == tl[i] by {
                    assert(s[o + 1 + i] == s.subrange(o, e)[1 + i]);
                }
            }
            assert(s.subrange(c + 1, e - 1) =~= tr) by {
                assert forall|i: int| 0 <= i < tr.len() implies s.subrange(c + 1, e - 1)[i] == tr[i] by {
                    assert(s[c + 1 + i] == s.subrange(o, e)[c + 1 - o + i]);
                }
            }
            if p == o {
                assert(frames_at(lt, o + 1, o + 1) == Seq::<Frame>::empty());
                assert(frames_at(t, o, o + 1) =~= seq![Frame::Open(o as usize)]);
                assert(frames_at(t, o, p) == Seq::<Frame>::empty());
                assert(frames_at(t, o, p).push(Frame::Open(p as usize)) =~= seq![Frame::Open(o as usize)]);
                assert(s[p] == '{');
                assert(boundary(lt, o + 1, o + 1));
                assert(boundary(t, o, p + 1));
                p + 1
            } else if p < c {
                assert(boundary(lt, o + 1, p));
                let np = lemma_step(lt, o + 1, p, s, c);
                let pre = seq![Frame::Open(o as usize)];
                assert(frames_at(t, o, p) == pre + frames_at(lt, o + 1, p));
                assert(frames_at(t, o, np) == pre + frames_at(lt, o + 1, np));
                if s[p] == '{' {
                    assert(pre + frames_at(lt, o + 1, p).push(Frame::Open(p as usize)) =~= (pre
                        + frames_at(lt, o + 1, p)).push(Frame::Open(p as usize)));
                } else if s[p] == '}' {
                    lemma_closes_prefix(s, pre, frames_at(lt, o + 1, p), frames_at(lt, o + 1, np), p);
                } else if s[p] != ',' {
                    lemma_pushes_prefix(s, pre, frames_at(lt, o + 1, p), frames_at(lt, o + 1, np), p, np);
                    assert(leaf_ends_at(s, p, end, np)) by {
                        assert(leaf_ends_at(s, p, c, np));
                    }
                }
                np
            } else if p == c {
                assert(boundary(rt, c + 1, c + 1));
                assert(frames_at(rt, c + 1, c + 1) == Seq::<Frame>::empty());
                assert(frames_at(lt, o + 1, c) == seq![Frame::Sub(lt, (o + 1) as usize, c as usize)]);
                assert(frames_at(t, o, c + 1) =~= frames_at(t, o, c));
                assert(s[p] == ',');
                assert(boundary(t, o, p + 1));
                p + 1
            } else if p < e - 1 {
                assert(boundary(rt, c + 1, p));
                let np = lemma_step(rt, c + 1, p, s, e - 1);
                let pre = seq![Frame::Open(o as usize), Frame::Sub(lt, (o + 1) as usize, c as usize)];
                assert(frames_at(t, o, p) == pre + frames_at(rt, c + 1, p));
                assert(frames_at(t, o, np) == pre + frames_at(rt, c + 1, np));
                if s[p] == '{' {
                    assert(pre + frames_at(rt, c + 1, p).push(Frame::Open(p as usize)) =~= (pre
                        + frames_at(rt, c + 1, p)).push(Frame::Open(p as usize)));
                } else if s[p] == '}' {
                    lemma_closes_prefix(s, pre, frames_at(rt, c + 1, p), frames_at(rt, c + 1, np), p);
                } else if s[p] != ',' {
                    lemma_pushes_prefix(s, pre, frames_at(rt, c + 1, p), frames_at(rt, c + 1, np), p, np);
                    assert(leaf_ends_at(s, p, end, np)) by {
                        assert(leaf_ends_at(s, p, e - 1, np));
                    }
                }
                np
            } else {
                assert(p == e - 1);
                let before = frames_at(t, o, p);
                assert(frames_at(rt, c + 1, e - 1) == seq![Frame::Sub(rt, (c + 1) as usize, (e - 1) as usize)]);
                assert(before =~= seq![Frame::Open(o as usize), Frame::Sub(lt, (o + 1) as usize, c as usize), Frame::Sub(rt, (c + 1) as usize, (e - 1) as usize)]);
                assert(frames_at(t, o, e) == seq![Frame::Sub(t, o as usize, e as usize)]);
                assert(before.take(0) =~= frames_at(t, o, e).take(0));
                assert(s[p] == '}');
                assert(closes(s, before, frames_at(t, o, e), p));
                assert(boundary(t, o, e));
                e
            }
        }
    }
}

/// `t` is a tree of script leaves whose text is `s[q..end]`.
pub open spec fn region_tree(s: Seq<char>, q: int, end: int, t: TapTree<String>) -> bool {
    &&& tree_ok(t)
    &&& t.wf()
    &&& tree_text(t) == s.subrange(q, end)
}

/// At `p` the parser holds the stack that every tree whose text is `s[q..end]`
/// leads to.
spec fn on_track(s: Seq<char>, q: int, end: int, p: int, stack: Seq<Frame>) -> bool {
    forall|t: TapTree<String>|
        #[trigger] region_tree(s, q, end, t) ==> boundary(t, q, p) && frames_like(
            stack,
            frames_at(t, q, p),
        )
}

proof fn lemma_like_push(fs: Seq<Frame>, gs: Seq<Frame>, f: Frame, g: Frame)
    requires
        frames_like(fs, gs),
        frame_like(f, g),
    ensures
        frames_like(fs.push(f), gs.push(g)),
{
    assert forall|i: int| 0 <= i < fs.push(f).len() implies frame_like(
        #[trigger] fs.push(f)[i],
        gs.push(g)[i],
    ) by {
        if i < fs.len() {
            assert(frame_like(fs[i], gs[i]));
        }
    }
}

/// The tree whose text is `s[q..end]`.
#[verifier::rlimit(100)]
#[verifier::spinoff_prover]
fn parse_tree(s: &str, q: usize, end: usize) -> (r: Result<TapTree<String>, ParseError>)
    requires
        s.is_ascii(),
        q <= end <= s@.len(),
    ensures
        r matches Ok(t) ==> t.wf() && tree_ok(t) && tree_text(t) == s@.subrange(q as int, end as int),
        forall|t: TapTree<String>|
            #[trigger] region_tree(s@, q as int, end as int, t) ==> (r matches Ok(u) && same_tree(
                u,
                t,
            )),
{
    let mut stack: Vec<Frame> = Vec::new();
    let mut p: usize = q;
    proof {
        assert forall|t: TapTree<String>| #[trigger] region_tree(s@, q as int, end as int, t) implies boundary(t, q as int, p as int) && frames_like(
            stack@,
            frames_at(t, q as int, p as int),
        ) by {
            assert(frames_at(t, q as int, q as int) == Seq::<Frame>::empty());
        }
    }
    while p < end
        invariant
            s.is_ascii(),
            q <= p <= end <= s@.len(),
            forall|i: int| 0 <= i < stack@.len() ==> frame_ok(#[trigger] stack@[i], s@, q as int, p as int),
            on_track(s@, q as int, end as int, p as int, stack@),
        decreases end - p,
    {
        let c = s.get_ascii(p) as char;
        let ghost p0 = p as int;
        let ghost st0 = stack@;
        proof {
            assert forall|t: TapTree<String>| #[trigger] region_tree(s@, q as int, end as int, t) implies tree_text(t).len() == end - q by {}
        }
        if c == '{' {
            stack.push(Frame::Open(p));
            p = p + 1;
            proof {
                assert forall|i: int| 0 <= i < stack@.len() implies frame_ok(#[trigger] stack@[i], s@, q as int, p as int) by {
                    if i < stack@.len() - 1 {
                        assert(frame_ok(stack@[i], s@, q as int, p - 1));
                    }
                }
                assert forall|t: TapTree<String>| #[trigger] region_tree(s@, q as int, end as int, t) implies boundary(t, q as int, p as int) && frames_like(
                    stack@,
                    frames_at(t, q as int, p as int),
                ) by {
                    lemma_step(t, q as int, p0, s@, end as int);
                    lemma_like_push(st0, frames_at(t, q as int, p0), Frame::Open(p0 as usize), Frame::Open(p0 as usize));
                }
            }
        } else if c == ',' {
            p = p + 1;
            proof {
                assert forall|i: int| 0 <= i < stack@.len() implies frame_ok(#[trigger] stack@[i], s@, q as int, p as int) by {
                    assert(frame_ok(stack@[i], s@, q as int, p - 1));
                }
                assert forall|t: TapTree<String>| #[trigger] region_tree(s@, q as int, end as int, t) implies boundary(t, q as int, p as int) && frames_like(
                    stack@,
                    frames_at(t, q as int, p as int),
                ) by {
                    lemma_step(t, q as int, p0, s@, end as int);
                }
            }
        } else if c == '}' {
            let ghost before = stack@;
            let ghost n = before.len() as int;
            proof {
                assert forall|t: TapTree<String>| #[trigger] region_tree(s@, q as int, end as int, t) implies closes(s@, frames_at(t, q as int, p0), frames_at(t, q as int, p0 + 1), p0)
                    && n >= 3
                    && frame_like(before[n - 3], frames_at(t, q as int, p0)[n - 3])
                    && frame_like(before[n - 2], frames_at(t, q as int, p0)[n - 2])
                    && frame_like(before[n - 1], frames_at(t, q as int, p0)[n - 1]) by {
                    lemma_step(t, q as int, p0, s@, end as int);
                }
            }
            let right = stack.pop();
            let left = stack.pop();
            let open = stack.pop();
            match (open, left, right) {
                (Some(Frame::Open(ob)), Some(Frame::Sub(l, ls, le)), Some(Frame::Sub(r, rs, re))) => {
                    proof {
                        assert(frame_ok(before[before.len() - 1], s@, q as int, p as int));
                        assert(frame_ok(before[before.len() - 2], s@, q as int, p as int));
                        assert(frame_ok(before[before.len() - 3], s@, q as int, p as int));
                        assert(stack@ == before.take(n - 3));
                    }
                    if ls != ob + 1 || s.get_ascii(le) as char != ',' || rs != le + 1 || re != p {
                        return Err(ParseError::BranchChildren);
                    }
                    let ghost lv = l;
                    let ghost rv = r;
                    let t = TapTree::combine(l, r);
                    proof {
                        assert(s@[le as int] == ',');
                        assert(s@.subrange(ob as int, p + 1) =~= seq!['{'] + s@.subrange(
                            ls as int,
                            le as int,
                        ) + seq![','] + s@.subrange(rs as int, re as int) + seq!['}']);
                        assert(tree_text(t) == s@.subrange(ob as int, p + 1));
                    }
                    let ghost mid = stack@;
                    stack.push(Frame::Sub(t, ob, p + 1));
                    p = p + 1;
                    proof {
                        assert forall|i: int| 0 <= i < stack@.len() implies frame_ok(#[trigger] stack@[i], s@, q as int, p as int) by {
                            if i < stack@.len() - 1 {
                                assert(stack@[i] == before[i]);
                                assert(frame_ok(before[i], s@, q as int, p - 1));
                            }
                        }
                        assert forall|tt: TapTree<String>| #[trigger] region_tree(s@, q as int, end as int, tt) implies boundary(tt, q as int, p as int) && frames_like(
                            stack@,
                            frames_at(tt, q as int, p as int),
                        ) by {
                            lemma_step(tt, q as int, p0, s@, end as int);
                            let fb = frames_at(tt, q as int, p0);
                            let fa = frames_at(tt, q as int, p0 + 1);
                            assert(frame_like(before[n - 2], fb[n - 2]));
                            assert(frame_like(before[n - 1], fb[n - 1]));
                            let big = fa[n - 3];
                            if let Frame::Sub(bt, _, _) = big {
                                if let TapTree::Tree { left: bl, right: br, .. } = bt {
                                    if let Frame::Sub(fl, _, _) = fb[n - 2] {
                                        if let Frame::Sub(fr, _, _) = fb[n - 1] {
                                            assert(same_tree(lv, fl));
                                            assert(same_tree(rv, fr));
                                            lemma_same_tree_height(&lv, &fl);
                                            lemma_same_tree_height(&rv, &fr);
                                            assert(same_tree(t, bt));
                                        }
                                    }
                                }
                            }
                            assert(frames_like(mid, fa.take(n - 3))) by {
                                assert forall|i: int| 0 <= i < mid.len() implies frame_like(#[trigger] mid[i], fa.take(n - 3)[i]) by {
                                    assert(mid[i] == before[i]);
                                    assert(fa.take(n - 3)[i] == fb.take(n - 3)[i]);
                                    assert(frame_like(before[i], fb[i]));
                                }
                            }
                            lemma_like_push(mid, fa.take(n - 3), Frame::Sub(t, ob, (p0 + 1) as usize), big);
                            assert(fa.take(n - 3).push(big) =~= fa);
                        }
                    }
                },
                _ => {
                    return Err(ParseError::BranchChildren);
                },
            }
        } else {
            let j = match scan_leaf(s, p, end) {
                Ok(j) => j,
                Err(e) => {
                    proof {
                        assert forall|t: TapTree<String>| #[trigger] region_tree(s@, q as int, end as int, t) implies false by {
                            let np = lemma_step(t, q as int, p0, s@, end as int);
                            assert(leaf_ends_at(s@, p0, end as int, np));
                        }
                    }
                    return Err(e);
                },
            };
            let text = s.substring_ascii(p, j).to_owned();
            let lt = TapTree::leaf(text);
            let ghost lv = lt;
            stack.push(Frame::Sub(lt, p, j));
            p = j;
            proof {
                assert forall|i: int| 0 <= i < stack@.len() implies frame_ok(#[trigger] stack@[i], s@, q as int, p as int) by {
                    if i < stack@.len() - 1 {
                        assert(frame_ok(stack@[i], s@, q as int, p0));
                    }
                }
                assert forall|t: TapTree<String>| #[trigger] region_tree(s@, q as int, end as int, t) implies boundary(t, q as int, p as int) && frames_like(
                    stack@,
                    frames_at(t, q as int, p as int),
                ) by {
                    let np = lemma_step(t, q as int, p0, s@, end as int);
                    assert(leaf_ends_at(s@, p0, end as int, np));
                    assert(np == j);
                    let fa = frames_at(t, q as int, np);
                    assert(fa =~= frames_at(t, q as int, p0).push(fa.last()));
                    lemma_like_push(st0, frames_at(t, q as int, p0), Frame::Sub(lv, p0 as usize, j), fa.last());
                }
            }
        }
    }
    proof {
        assert forall|t: TapTree<String>| #[trigger] region_tree(s@, q as int, end as int, t) implies stack@.len() == 1 && frame_like(stack@[0], Frame::Sub(t, q, end)) by {
            lemma_text_nonempty(&t);
            assert(frames_at(t, q as int, end as int) == seq![Frame::Sub(t, q, end)]);
        }
    }
    if stack.len() != 1 {
        return Err(ParseError::BranchChildren);
    }
    proof {
        assert(frame_ok(stack@[0], s@, q as int, p as int));
    }
    match stack.pop() {
        Some(Frame::Sub(t, a, b)) => {
            if a != q || b != end {
                return Err(ParseError::BranchChildren);
            }
            Ok(t)
        },
        _ => Err(ParseError::BranchChildren),
    }
}

/// Appends the text of `t` to `out`.
fn write_tree(t: &TapTree<String>, out: &mut String)
    ensures
        final(out)@ == old(out)@ + tree_text(*t),
    decreases *t,
{
    match t {
        TapTree::Tree { left, right, .. } => {
            proof {
                reveal_strlit("{");
                reveal_strlit(",");
                reveal_strlit("}");
            }
            let ghost o = out@;
            out.append("{");
            write_tree(left, out);
            out.append(",");
            write_tree(right, out);
            out.append("}");
            proof {
                assert(out@ =~= o + tree_text(*t));
            }
        },
        TapTree::Leaf(l) => {
            out.append(l.as_str());
        },
    }
}

/// `u` and `t` are both absent, or trees with the same shape, cached heights
/// and leaf texts.
pub open spec fn same_opt_tree(u: Option<TapTree<String>>, t: Option<TapTree<String>>) -> bool {
    match (u, t) {
        (Some(a), Some(b)) => same_tree(a, b),
        (None, None) => true,
        _ => false,
    }
}

/// `text` is the text of a descriptor with key `k` and tree `t`, whatever its
/// height: a key that holds no comma, parenthesis or brace, well-formed leaves
/// that can stand as scripts, and ASCII text.
pub open spec fn well_formed(k: Seq<char>, t: Option<TapTree<String>>, text: Seq<char>) -> bool {
    &&& key_ok(k)
    &&& match t {
        Some(tt) => tree_ok(tt) && tt.wf(),
        None => true,
    }
    &&& vstd::utf8::is_ascii_chars(text)
    &&& text == desc_text(k, t)
}

/// `text` is the canonical text of a descriptor with key `k` and tree `t`
/// within the depth limit.
pub open spec fn canonical(k: Seq<char>, t: Option<TapTree<String>>, text: Seq<char>) -> bool {
    &&& well_formed(k, t, text)
    &&& opt_height(t) <= MAX_NODE_COUNT
}

impl Tr<String> {
    /// The canonical text of this descriptor, without a checksum.
    pub fn to_text(&self) -> (r: String)
        ensures
            r@ == desc_text(self.key(), self.tree()),
    {
        proof {
            reveal_strlit("tr(");
            reveal_strlit(",");
            reveal_strlit(")");
        }
        let mut out = String::new();
        out.append("tr(");
        out.append(self.internal_key().as_str());
        match self.tap_tree() {
            Some(t) => {
                out.append(",");
                write_tree(t, &mut out);
            },
            None => {},
        }
        out.append(")");
        proof {
            assert(out@ =~= desc_text(self.key(), self.tree()));
        }
        out
    }

    /// Parses the canonical text form of a descriptor whose leaves are kept
    /// as script texts. A descriptor that parses prints back as the input.
    pub fn from_str(s: &str) -> (r: Result<Tr<String>, Error>)
        ensures
            r matches Ok(d) ==> d.wf() && canonical(d.key(), d.tree(), s@),
            r matches Err(e) ==> (e is Parse || (e is MaxRecursiveDepthExceeded && exists|
                k: Seq<char>,
                t: Option<TapTree<String>>,
            | #[trigger] well_formed(k, t, s@) && opt_height(t) > MAX_NODE_COUNT)),
            forall|k: Seq<char>, t: Option<TapTree<String>>|
                #[trigger] well_formed(k, t, s@) ==> {
                    &&& opt_height(t) <= MAX_NODE_COUNT ==> (r matches Ok(d) && d.key() == k
                        && same_opt_tree(d.tree(), t))
                    &&& opt_height(t) > MAX_NODE_COUNT ==> r == Err::<Tr<String>, Error>(
                        Error::MaxRecursiveDepthExceeded,
                    )
                },
    {
        let ghost head = seq!['t', 'r', '('];
        proof {
            reveal_strlit("tr(");
            assert forall|kk: Seq<char>, tt: Option<TapTree<String>>| #[trigger] well_formed(kk, tt, s@) implies {
                &&& s@.len() >= 5
                &&& s@[0] == 't' && s@[1] == 'r' && s@[2] == '('
                &&& s@[s@.len() - 1] == ')'
                &&& s@.subrange(3, 3 + kk.len() as int) == kk
                &&& (tt is None ==> s@.len() - 1 == 3 + kk.len() as int)
                &&& (tt matches Some(x) ==> s@[3 + kk.len() as int] == ',' && s@.subrange(
                    4 + kk.len() as int,
                    s@.len() - 1,
                ) == tree_text(x) && (3 + kk.len() as int) < s@.len() - 1)
            } by {
                match tt {
                    Some(x) => {
                        assert(s@ == head + kk + seq![','] + tree_text(x) + seq![')']);
                        assert(s@.subrange(3, 3 + kk.len() as int) =~= kk);
                        assert(s@.subrange(4 + kk.len() as int, s@.len() - 1) =~= tree_text(x));
                        assert(s@[3 + kk.len() as int] == ',');
                        lemma_text_nonempty(&x);
                    },
                    None => {
                        assert(s@ == head + kk + seq![')']);
                        assert(s@.subrange(3, 3 + kk.len() as int) =~= kk);
                    },
                }
            }
        }
        if !s.is_ascii() {
            return Err(Error::Parse(ParseError::NotTr));
        }
        let n = s.unicode_len();
        if n < 4 || s.get_ascii(0) as char != 't' || s.get_ascii(1) as char != 'r' || s.get_ascii(2)
            as char != '(' || s.get_ascii(n - 1) as char != ')' {
            return Err(Error::Parse(ParseError::NotTr));
        }
        let mut k: usize = 3;
        while k < n - 1 && !is_key_end(s.get_ascii(k) as char)
            invariant
                s.is_ascii(),
                n == s@.len(),
                3 <= k <= n - 1,
                forall|i: int| 3 <= i < k ==> !is_key_end_spec(#[trigger] s@[i]),
                forall|kk: Seq<char>, tt: Option<TapTree<String>>|
                    #[trigger] well_formed(kk, tt, s@) ==> k <= 3 + kk.len() as int,
            decreases n - k,
        {
            proof {
                assert forall|kk: Seq<char>, tt: Option<TapTree<String>>| #[trigger] well_formed(kk, tt, s@) implies k + 1 <= 3 + kk.len() as int by {
                    if k == 3 + kk.len() as int {
                        assert(tt is Some);
                    }
                }
            }
            k = k + 1;
        }
        proof {
            assert forall|kk: Seq<char>, tt: Option<TapTree<String>>| #[trigger] well_formed(kk, tt, s@) implies k == 3 + kk.len() as int by {
                if (k as int) < 3 + kk.len() as int {
                    assert(s@[k as int] == s@.subrange(3, 3 + kk.len() as int)[k - 3]);
                    assert(s@[k as int] == kk[k - 3]);
                }
            }
        }
        if k == 3 {
            return Err(Error::Parse(ParseError::BadKey));
        }
        let key = s.substring_ascii(3, k).to_owned();
        proof {
            assert forall|i: int| 0 <= i < key@.len() implies {
                &&& #[trigger] key@[i] != ','
                &&& key@[i] != '('
                &&& key@[i] != ')'
                &&& key@[i] != '{'
                &&& key@[i] != '}'
            } by {
                assert(key@[i] == s@[3 + i]);
            }
            assert(key_ok(key@));
            assert(vstd::utf8::is_ascii_chars(s@));
        }
        if k == n - 1 {
            proof {
                assert(s@ =~= head + key@ + seq![')']);
                assert(well_formed(key@, None, s@));
            }
            return Tr::new(key, None);
        }
        if s.get_ascii(k) as char != ',' {
            return Err(Error::Parse(ParseError::BadKey));
        }
        match parse_tree(s, k + 1, n - 1) {
            Ok(t) => {
                proof {
                    assert(s@ =~= head + key@ + seq![','] + tree_text(t) + seq![')']);
                    assert(well_formed(key@, Some(t), s@));
                    assert forall|kk: Seq<char>, tt: Option<TapTree<String>>| #[trigger] well_formed(kk, tt, s@) implies tt matches Some(x) && same_tree(t, x) && tree_height(t) == tree_height(x) by {
                        if let Some(x) = tt {
                            assert(region_tree(s@, k + 1, n - 1, x));
                            lemma_same_tree_height(&t, &x);
                        }
                    }
                }
                Tr::new(key, Some(t))
            },
            Err(e) => {
                proof {
                    assert forall|kk: Seq<char>, tt: Option<TapTree<String>>| #[trigger] well_formed(kk, tt, s@) implies false by {
                        if let Some(x) = tt {
                            assert(region_tree(s@, k + 1, n - 1, x));
                        }
                    }
                }
                Err(Error::Parse(e))
            },
        }
    }
}

} // verus!
