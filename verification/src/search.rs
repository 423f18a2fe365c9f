//! Depth-limited search over flip sequences.
use vstd::prelude::*;
use crate::ball::SBall;
use crate::moves::{no_repeat, play_cells, valid_flips};

verus! {

/// What the search reports each ball it reaches to.
///
/// `origin` is the ball the search starts from; each call of `visit` gets a
/// ball together with the flips that lead to it from there.  The answer says
/// whether the search goes on below that ball.
pub trait Visitor {
    /// What the visitor was set up with.
    type Params;

    /// The cells of the ball that the search starts from.
    spec fn origin(&self) -> Seq<u64>;

    /// What the visitor was set up with, which visiting leaves as it is.
    spec fn params(&self) -> Self::Params;

    /// The longest path the visitor is to be shown.
    spec fn limit(&self) -> nat;

    /// What the visitor keeps true of what it has gathered.
    spec fn inv(&self) -> bool;

    /// Whether the visitor has taken note of the ball that `path` leads to.
    spec fn seen(&self, path: Seq<usize>) -> bool;

    /// Whether the visitor has what it looks for, and may stop the search.
    spec fn done(&self) -> bool;

    /// The paths the visitor was shown, in order, each with its answer.
    spec fn log(&self) -> Seq<(Seq<usize>, bool)>;

    fn visit(&mut self, ball: &SBall, path: &[usize]) -> (cont: bool)
        requires
            old(self).inv(),
            ball@ == play_cells(old(self).origin(), path@),
            ball.wf(),
            valid_flips(path@),
            no_repeat(path@),
            path@.len() <= old(self).limit(),
        ensures
            final(self).inv(),
            final(self).origin() == old(self).origin(),
            final(self).params() == old(self).params(),
            final(self).limit() == old(self).limit(),
            final(self).log() == old(self).log().push((path@, cont)),
            final(self).seen(path@) || final(self).done(),
            forall|p: Seq<usize>| #[trigger] old(self).seen(p) ==> final(self).seen(p),
            old(self).done() ==> final(self).done(),
            !cont ==> final(self).done(),
    ;
}

/// The paths that a search of `n_depth` flips goes through below a ball
/// reached by flip `n_last`: valid flips, none following itself or `n_last`.
pub open spec fn search_path(q: Seq<usize>, n_depth: int, n_last: int) -> bool {
    &&& valid_flips(q)
    &&& no_repeat(q)
    &&& q.len() <= n_depth
    &&& q.len() > 0 ==> q[0] != n_last
}

/// The flip tried as child `i` of a ball: the secondary flips 6 to 12 come
/// first, then the primary flips 0 to 5.
pub open spec fn child_flip(i: int) -> usize {
    if i < 7 {
        (6 + i) as usize
    } else {
        (i - 7) as usize
    }
}

/// The place of the flip `c` among the children of a ball.
pub open spec fn child_index(c: usize) -> int {
    if c >= 6 {
        c - 6
    } else {
        c + 7
    }
}

/// Whether the path `p` begins with the path `q`.
pub open spec fn starts_with(p: Seq<usize>, q: Seq<usize>) -> bool {
    q.len() <= p.len() && forall|i: int| 0 <= i < q.len() ==> p[i] == q[i]
}

/// The paths, in the order of the visits, that a depth-first search goes
/// through from the ball that `prefix` leads to, with `depth` flips left and
/// `last` the flip that led there (13 at the origin), where `ans` is what the
/// visitor answers for each path: a ball is visited, and only where the
/// answer is `true` and flips are left are its children searched in turn.
pub open spec fn dfs_visits(
    prefix: Seq<usize>,
    depth: nat,
    last: int,
    ans: spec_fn(Seq<usize>) -> bool,
) -> Seq<Seq<usize>>
    decreases depth, 14nat,
{
    if ans(prefix) && depth > 0 {
        seq![prefix] + dfs_children(prefix, depth, last, ans, 13)
    } else {
        seq![prefix]
    }
}

/// The visits below the first `n` children of the ball that `prefix` leads
/// to; the child by the flip `last` is left out.
pub open spec fn dfs_children(
    prefix: Seq<usize>,
    depth: nat,
    last: int,
    ans: spec_fn(Seq<usize>) -> bool,
    n: nat,
) -> Seq<Seq<usize>>
    decreases depth, n,
{
    if n == 0 || depth == 0 {
        Seq::empty()
    } else {
        let c = child_flip(n - 1);
        let below = if c == last {
            Seq::<Seq<usize>>::empty()
        } else {
            dfs_visits(prefix.push(c), (depth - 1) as nat, c as int, ans)
        };
        dfs_children(prefix, depth, last, ans, (n - 1) as nat) + below
    }
}

/// Each path with the answer given for it.
pub open spec fn with_answers(ps: Seq<Seq<usize>>, ans: spec_fn(Seq<usize>) -> bool) -> Seq<
    (Seq<usize>, bool),
> {
    ps.map_values(|p: Seq<usize>| (p, ans(p)))
}

/// Every path a search visits begins with the path it starts from.
proof fn lemma_dfs_shape(prefix: Seq<usize>, depth: nat, last: int, ans: spec_fn(Seq<usize>) -> bool)
    ensures
        dfs_visits(prefix, depth, last, ans).len() >= 1,
        dfs_visits(prefix, depth, last, ans)[0] == prefix,
        forall|i: int|
            0 <= i < dfs_visits(prefix, depth, last, ans).len() ==> starts_with(
                #[trigger] dfs_visits(prefix, depth, last, ans)[i],
                prefix,
            ),
    decreases depth, 14nat,
{
    let v = dfs_visits(prefix, depth, last, ans);
    if ans(prefix) && depth > 0 {
        lemma_children_shape(prefix, depth, last, ans, 13);
        let ch = dfs_children(prefix, depth, last, ans, 13);
        assert forall|i: int| 0 <= i < v.len() implies starts_with(#[trigger] v[i], prefix) by {
            if i > 0 {
                assert(v[i] == ch[i - 1]);
            }
        }
    }
}

/// Every path visited below the first `n` children of a ball goes on from it
/// by one of those children's flips.
proof fn lemma_children_shape(
    prefix: Seq<usize>,
    depth: nat,
    last: int,
    ans: spec_fn(Seq<usize>) -> bool,
    n: nat,
)
    requires
        n <= 13,
    ensures
        forall|i: int|
            0 <= i < dfs_children(prefix, depth, last, ans, n).len() ==> {
                let p = #[trigger] dfs_children(prefix, depth, last, ans, n)[i];
                &&& starts_with(p, prefix)
                &&& p.len() > prefix.len()
                &&& p[prefix.len() as int] < 13
                &&& child_index(p[prefix.len() as int]) < n
            },
    decreases depth, n,
{
    if n == 0 || depth == 0 {
    } else {
        let c = child_flip(n - 1);
        lemma_children_shape(prefix, depth, last, ans, (n - 1) as nat);
        let front = dfs_children(prefix, depth, last, ans, (n - 1) as nat);
        let ch = dfs_children(prefix, depth, last, ans, n);
        if c == last {
            assert(ch =~= front);
        } else {
            let q = prefix.push(c);
            lemma_dfs_shape(q, (depth - 1) as nat, c as int, ans);
            let below = dfs_visits(q, (depth - 1) as nat, c as int, ans);
            assert forall|i: int| 0 <= i < ch.len() implies {
                let p = #[trigger] ch[i];
                &&& starts_with(p, prefix)
                &&& p.len() > prefix.len()
                &&& p[prefix.len() as int] < 13
                &&& child_index(p[prefix.len() as int]) < n
            } by {
                if i >= front.len() {
                    let p = below[i - front.len()];
                    assert(ch[i] == p);
                    assert(starts_with(p, q));
                    assert(p[prefix.len() as int] == q[prefix.len() as int]);
                    assert forall|j: int| 0 <= j < prefix.len() implies p[j] == prefix[j] by {
                        assert(p[j] == q[j]);
                    }
                } else {
                    assert(ch[i] == front[i]);
                }
            }
        }
    }
}

/// A search visits the same paths wherever the answers agree on the paths
/// that begin with the one it starts from.
proof fn lemma_dfs_congruent(
    prefix: Seq<usize>,
    depth: nat,
    last: int,
    a1: spec_fn(Seq<usize>) -> bool,
    a2: spec_fn(Seq<usize>) -> bool,
)
    requires
        forall|p: Seq<usize>| #[trigger] starts_with(p, prefix) ==> a1(p) == a2(p),
    ensures
        dfs_visits(prefix, depth, last, a1) == dfs_visits(prefix, depth, last, a2),
    decreases depth, 14nat,
{
    assert(starts_with(prefix, prefix));
    if a1(prefix) && depth > 0 {
        lemma_children_congruent(prefix, depth, last, a1, a2, 13);
    }
}

/// The children's part of `lemma_dfs_congruent`.
proof fn lemma_children_congruent(
    prefix: Seq<usize>,
    depth: nat,
    last: int,
    a1: spec_fn(Seq<usize>) -> bool,
    a2: spec_fn(Seq<usize>) -> bool,
    n: nat,
)
    requires
        n <= 13,
        forall|p: Seq<usize>|
            #[trigger] starts_with(p, prefix) && p.len() > prefix.len() && p[prefix.len() as int]
                < 13 && child_index(p[prefix.len() as int]) < n ==> a1(p) == a2(p),
    ensures
        dfs_children(prefix, depth, last, a1, n) == dfs_children(prefix, depth, last, a2, n),
    decreases depth, n,
{
    if n == 0 || depth == 0 {
    } else {
        let c = child_flip(n - 1);
        lemma_children_congruent(prefix, depth, last, a1, a2, (n - 1) as nat);
        if c != last {
            let q = prefix.push(c);
            assert forall|p: Seq<usize>| #[trigger] starts_with(p, q) implies a1(p) == a2(p) by {
                assert(p[prefix.len() as int] == q[prefix.len() as int]);
                assert forall|j: int| 0 <= j < prefix.len() implies p[j] == prefix[j] by {
                    assert(p[j] == q[j]);
                }
                assert(starts_with(p, prefix));
            }
            lemma_dfs_congruent(q, (depth - 1) as nat, c as int, a1, a2);
        }
    }
}

/// One more child of the ball that `path` leads to searched: the record of
/// the visits grows by those below it.
proof fn lemma_child_step(
    path: Seq<usize>,
    depth: nat,
    last: int,
    k: nat,
    a_old: spec_fn(Seq<usize>) -> bool,
    a_c: spec_fn(Seq<usize>) -> bool,
    log0: Seq<(Seq<usize>, bool)>,
    log1: Seq<(Seq<usize>, bool)>,
    log2: Seq<(Seq<usize>, bool)>,
) -> (a_new: spec_fn(Seq<usize>) -> bool)
    requires
        depth > 0,
        k < 13,
        a_old(path),
        log1 == log0 + with_answers(seq![path] + dfs_children(path, depth, last, a_old, k), a_old),
        child_flip(k as int) == last ==> log2 == log1,
        child_flip(k as int) != last ==> log2 == log1 + with_answers(
            dfs_visits(
                path.push(child_flip(k as int)),
                (depth - 1) as nat,
                child_flip(k as int) as int,
                a_c,
            ),
            a_c,
        ),
    ensures
        a_new(path),
        log2 == log0 + with_answers(
            seq![path] + dfs_children(path, depth, last, a_new, k + 1),
            a_new,
        ),
{
    let c = child_flip(k as int);
    let q = path.push(c);
    let a_new = |p: Seq<usize>|
        if starts_with(p, q) {
            a_c(p)
        } else {
            a_old(p)
        };
    assert(!starts_with(path, q));
    lemma_children_shape(path, depth, last, a_old, k);
    let front = dfs_children(path, depth, last, a_old, k);
    assert forall|p: Seq<usize>|
        #[trigger] starts_with(p, path) && p.len() > path.len() && p[path.len() as int] < 13
            && child_index(p[path.len() as int]) < k implies a_new(p) == a_old(p) by {
        if starts_with(p, q) {
            assert(p[path.len() as int] == q[path.len() as int]);
        }
    }
    lemma_children_congruent(path, depth, last, a_new, a_old, k);
    let s_old = seq![path] + front;
    assert forall|i: int| 0 <= i < s_old.len() implies a_new(#[trigger] s_old[i]) == a_old(
        s_old[i],
    ) by {
        if i > 0 {
            assert(s_old[i] == front[i - 1]);
            let p = front[i - 1];
            if starts_with(p, q) {
                assert(p[path.len() as int] == q[path.len() as int]);
            }
        }
    }
    assert(with_answers(s_old, a_new) =~= with_answers(s_old, a_old));
    if c == last {
        assert(dfs_children(path, depth, last, a_new, k + 1) =~= dfs_children(
            path,
            depth,
            last,
            a_new,
            k,
        ));
        assert(seq![path] + dfs_children(path, depth, last, a_new, k + 1) =~= s_old);
    } else {
        assert forall|p: Seq<usize>| #[trigger] starts_with(p, q) implies a_new(p) == a_c(p) by {}
        lemma_dfs_congruent(q, (depth - 1) as nat, c as int, a_new, a_c);
        lemma_dfs_shape(q, (depth - 1) as nat, c as int, a_c);
        let below = dfs_visits(q, (depth - 1) as nat, c as int, a_c);
        assert(with_answers(below, a_new) =~= with_answers(below, a_c));
        assert(seq![path] + dfs_children(path, depth, last, a_new, k + 1) =~= s_old + below);
        assert(with_answers(s_old + below, a_new) =~= with_answers(s_old, a_new) + with_answers(
            below,
            a_new,
        ));
        assert(log2 =~= log0 + (with_answers(s_old, a_new) + with_answers(below, a_new)));
    }
    a_new
}

/// The most visits a search of `depth` flips makes below a ball with `kids`
/// children to try: the ball itself, and below each child, whose own
/// children leave out the flip that led there.
pub open spec fn max_visits(depth: nat, kids: nat) -> nat
    decreases depth,
{
    if depth == 0 {
        1
    } else {
        1 + kids * max_visits((depth - 1) as nat, 12)
    }
}

/// Whether the path `p` is `prefix` followed by a path of at most `depth`
/// flips, none following itself or `last`.
pub open spec fn visit_ok(p: Seq<usize>, prefix: Seq<usize>, depth: int, last: int) -> bool {
    &&& starts_with(p, prefix)
    &&& search_path(p.subrange(prefix.len() as int, p.len() as int), depth, last)
}

/// A flip `c` in front of a path below it.
proof fn lemma_extend_path(r: Seq<usize>, c: usize, depth: int, last: int)
    requires
        search_path(r, depth - 1, c as int),
        c < 13,
        c != last,
    ensures
        search_path(seq![c] + r, depth, last),
{
    let t = seq![c] + r;
    assert forall|i: int| 0 <= i < t.len() implies #[trigger] t[i] < 13 by {
        if i > 0 {
            assert(t[i] == r[i - 1]);
        }
    }
    assert forall|i: int| 1 <= i < t.len() implies #[trigger] t[i] != t[i - 1] by {
        assert(t[i] == r[i - 1]);
        if i > 1 {
            assert(t[i - 1] == r[i - 2]);
        }
    }
}

/// Every path a search visits is the path it starts from followed by a
/// path within its depth.
proof fn lemma_dfs_paths(prefix: Seq<usize>, depth: nat, last: int, ans: spec_fn(Seq<usize>) -> bool)
    ensures
        forall|i: int|
            0 <= i < dfs_visits(prefix, depth, last, ans).len() ==> visit_ok(
                #[trigger] dfs_visits(prefix, depth, last, ans)[i],
                prefix,
                depth as int,
                last,
            ),
    decreases depth, 14nat,
{
    let v = dfs_visits(prefix, depth, last, ans);
    assert(prefix.subrange(prefix.len() as int, prefix.len() as int) =~= Seq::<usize>::empty());
    assert(visit_ok(prefix, prefix, depth as int, last));
    if ans(prefix) && depth > 0 {
        lemma_children_paths(prefix, depth, last, ans, 13);
        let ch = dfs_children(prefix, depth, last, ans, 13);
        assert forall|i: int| 0 <= i < v.len() implies visit_ok(
            #[trigger] v[i],
            prefix,
            depth as int,
            last,
        ) by {
            if i > 0 {
                assert(v[i] == ch[i - 1]);
            }
        }
    }
}

/// The children's part of `lemma_dfs_paths`.
proof fn lemma_children_paths(
    prefix: Seq<usize>,
    depth: nat,
    last: int,
    ans: spec_fn(Seq<usize>) -> bool,
    n: nat,
)
    requires
        n <= 13,
    ensures
        forall|i: int|
            0 <= i < dfs_children(prefix, depth, last, ans, n).len() ==> visit_ok(
                #[trigger] dfs_children(prefix, depth, last, ans, n)[i],
                prefix,
                depth as int,
                last,
            ),
    decreases depth, n,
{
    if n == 0 || depth == 0 {
    } else {
        let c = child_flip(n - 1);
        lemma_children_paths(prefix, depth, last, ans, (n - 1) as nat);
        let front = dfs_children(prefix, depth, last, ans, (n - 1) as nat);
        let ch = dfs_children(prefix, depth, last, ans, n);
        if c == last {
            assert(ch =~= front);
        } else {
            let q = prefix.push(c);
            lemma_dfs_paths(q, (depth - 1) as nat, c as int, ans);
            let below = dfs_visits(q, (depth - 1) as nat, c as int, ans);
            assert forall|i: int| 0 <= i < ch.len() implies visit_ok(
                #[trigger] ch[i],
                prefix,
                depth as int,
                last,
            ) by {
                if i >= front.len() {
                    let p = below[i - front.len()];
                    assert(ch[i] == p);
                    assert(visit_ok(p, q, depth - 1, c as int));
                    let r = p.subrange(q.len() as int, p.len() as int);
                    lemma_extend_path(r, c, depth as int, last);
                    assert(p[prefix.len() as int] == q[prefix.len() as int]);
                    assert(p.subrange(prefix.len() as int, p.len() as int) =~= seq![c] + r);
                    assert forall|j: int| 0 <= j < prefix.len() implies p[j] == prefix[j] by {
                        assert(p[j] == q[j]);
                    }
                } else {
                    assert(ch[i] == front[i]);
                }
            }
        }
    }
}

/// A search visits no path twice.
proof fn lemma_dfs_distinct(prefix: Seq<usize>, depth: nat, last: int, ans: spec_fn(Seq<usize>) -> bool)
    ensures
        forall|i: int, j: int|
            0 <= i < j < dfs_visits(prefix, depth, last, ans).len() ==> #[trigger] dfs_visits(
                prefix,
                depth,
                last,
                ans,
            )[i] != #[trigger] dfs_visits(prefix, depth, last, ans)[j],
    decreases depth, 14nat,
{
    let v = dfs_visits(prefix, depth, last, ans);
    if ans(prefix) && depth > 0 {
        lemma_children_distinct(prefix, depth, last, ans, 13);
        lemma_children_shape(prefix, depth, last, ans, 13);
        let ch = dfs_children(prefix, depth, last, ans, 13);
        assert forall|i: int, j: int| 0 <= i < j < v.len() implies #[trigger] v[i] != #[trigger] v[j] by {
            assert(v[j] == ch[j - 1]);
            if i > 0 {
                assert(v[i] == ch[i - 1]);
            } else {
                assert(ch[j - 1].len() > prefix.len());
            }
        }
    }
}

/// The children's part of `lemma_dfs_distinct`.
proof fn lemma_children_distinct(
    prefix: Seq<usize>,
    depth: nat,
    last: int,
    ans: spec_fn(Seq<usize>) -> bool,
    n: nat,
)
    requires
        n <= 13,
    ensures
        forall|i: int, j: int|
            0 <= i < j < dfs_children(prefix, depth, last, ans, n).len() ==> #[trigger] dfs_children(
                prefix,
                depth,
                last,
                ans,
                n,
            )[i] != #[trigger] dfs_children(prefix, depth, last, ans, n)[j],
    decreases depth, n,
{
    if n == 0 || depth == 0 {
    } else {
        let c = child_flip(n - 1);
        lemma_children_distinct(prefix, depth, last, ans, (n - 1) as nat);
        lemma_children_shape(prefix, depth, last, ans, (n - 1) as nat);
        let front = dfs_children(prefix, depth, last, ans, (n - 1) as nat);
        let ch = dfs_children(prefix, depth, last, ans, n);
        if c == last {
            assert(ch =~= front);
        } else {
            let q = prefix.push(c);
            lemma_dfs_distinct(q, (depth - 1) as nat, c as int, ans);
            lemma_dfs_shape(q, (depth - 1) as nat, c as int, ans);
            let below = dfs_visits(q, (depth - 1) as nat, c as int, ans);
            assert forall|i: int, j: int| 0 <= i < j < ch.len() implies #[trigger] ch[i]
                != #[trigger] ch[j] by {
                if j < front.len() {
                    assert(ch[i] == front[i]);
                    assert(ch[j] == front[j]);
                } else if i >= front.len() {
                    assert(ch[i] == below[i - front.len()]);
                    assert(ch[j] == below[j - front.len()]);
                } else {
                    assert(ch[i] == front[i]);
                    assert(ch[j] == below[j - front.len()]);
                    let pj = below[j - front.len()];
                    assert(starts_with(pj, q));
                    assert(pj[prefix.len() as int] == q[prefix.len() as int]);
                    assert(child_index(front[i][prefix.len() as int]) < n - 1);
                }
            }
        }
    }
}

/// Whether the flip `last` is one of the first `n` children of a ball, and
/// so left out of them.
spec fn left_out(last: int, n: nat) -> int {
    if 0 <= last < 13 && child_index(last as usize) < n {
        1
    } else {
        0
    }
}

/// A search makes at most `max_visits` visits.
proof fn lemma_dfs_count(prefix: Seq<usize>, depth: nat, last: int, ans: spec_fn(Seq<usize>) -> bool)
    ensures
        dfs_visits(prefix, depth, last, ans).len() <= max_visits(
            depth,
            if 0 <= last < 13 {
                12
            } else {
                13
            },
        ),
    decreases depth, 14nat,
{
    if ans(prefix) && depth > 0 {
        lemma_children_count(prefix, depth, last, ans, 13);
        assert(0 <= last < 13 ==> child_index(last as usize) < 13);
    }
}

/// The children's part of `lemma_dfs_count`.
proof fn lemma_children_count(
    prefix: Seq<usize>,
    depth: nat,
    last: int,
    ans: spec_fn(Seq<usize>) -> bool,
    n: nat,
)
    requires
        n <= 13,
        depth > 0,
    ensures
        dfs_children(prefix, depth, last, ans, n).len() <= (n - left_out(last, n)) * max_visits(
            (depth - 1) as nat,
            12,
        ),
    decreases depth, n,
{
    let m = max_visits((depth - 1) as nat, 12);
    if n == 0 {
    } else {
        let c = child_flip(n - 1);
        lemma_children_count(prefix, depth, last, ans, (n - 1) as nat);
        let e = left_out(last, (n - 1) as nat);
        let front = dfs_children(prefix, depth, last, ans, (n - 1) as nat);
        assert(child_index(c) == n - 1);
        if c == last {
            assert(left_out(last, n) == 1 && e == 0);
        } else {
            lemma_dfs_count(prefix.push(c), (depth - 1) as nat, c as int, ans);
            if 0 <= last < 13 {
                assert(child_index(last as usize) != n - 1) by {
                    if child_index(last as usize) == n - 1 {
                        assert(last == c);
                    }
                }
            }
            assert(left_out(last, n) == e);
            let k = n - 1 - e;
            assert(k * m + m == (k + 1) * m) by (nonlinear_arith);
        }
    }
}

/// What a search visits, whatever the answers: first the path it starts
/// from; then only that path followed by paths of at most `depth` flips, none
/// following itself or `last` (13 where no flip led to the start); no path
/// twice; and at most `max_visits(depth, 13)` visits from the origin, which is
/// 1 + 13 (12^depth - 1) / 11, or `max_visits(depth, 12)` below a flip.
pub proof fn lemma_search_visits(
    prefix: Seq<usize>,
    depth: nat,
    last: int,
    ans: spec_fn(Seq<usize>) -> bool,
)
    requires
        0 <= last <= 13,
    ensures
        dfs_visits(prefix, depth, last, ans)[0] == prefix,
        forall|i: int|
            0 <= i < dfs_visits(prefix, depth, last, ans).len() ==> visit_ok(
                #[trigger] dfs_visits(prefix, depth, last, ans)[i],
                prefix,
                depth as int,
                last,
            ),
        forall|i: int, j: int|
            0 <= i < j < dfs_visits(prefix, depth, last, ans).len() ==> #[trigger] dfs_visits(
                prefix,
                depth,
                last,
                ans,
            )[i] != #[trigger] dfs_visits(prefix, depth, last, ans)[j],
        dfs_visits(prefix, depth, last, ans).len() <= max_visits(
            depth,
            if last < 13 {
                12
            } else {
                13
            },
        ),
{
    lemma_dfs_shape(prefix, depth, last, ans);
    lemma_dfs_paths(prefix, depth, last, ans);
    lemma_dfs_distinct(prefix, depth, last, ans);
    lemma_dfs_count(prefix, depth, last, ans);
}

/// The path with one more flip.
proof fn lemma_push(path: Seq<usize>, k: usize, n_last: usize)
    requires
        valid_flips(path),
        no_repeat(path),
        path.len() > 0 ==> path.last() == n_last,
        k < 13,
        k != n_last,
    ensures
        valid_flips(path.push(k)),
        no_repeat(path.push(k)),
        path.push(k).drop_last() == path,
        path.push(k).last() == k,
{
    assert(path.push(k).drop_last() =~= path);
    assert forall|i: int| 0 <= i < path.push(k).len() implies #[trigger] path.push(k)[i] < 13 by {
        if i < path.len() {
            assert(path.push(k)[i] == path[i]);
        }
    }
    assert forall|i: int| 1 <= i < path.push(k).len() implies #[trigger] path.push(k)[i] != path.push(
        k,
    )[i - 1] by {
        if i < path.len() {
            assert(path.push(k)[i] == path[i]);
            assert(path.push(k)[i - 1] == path[i - 1]);
        } else {
            assert(path.push(k)[i - 1] == path[i - 1]);
        }
    }
}

/// A path below a child: the child's flip, then a path below it.
proof fn lemma_split_path(path: Seq<usize>, q: Seq<usize>, n_depth: int, n_last: int)
    requires
        search_path(q, n_depth, n_last),
        q.len() > 0,
    ensures
        search_path(q.drop_first(), n_depth - 1, q[0] as int),
        path.push(q[0]) + q.drop_first() == path + q,
{
    let r = q.drop_first();
    assert(path.push(q[0]) + r =~= path + q);
    assert forall|i: int| 0 <= i < r.len() implies #[trigger] r[i] < 13 by {
        assert(r[i] == q[i + 1]);
    }
    assert forall|i: int| 1 <= i < r.len() implies #[trigger] r[i] != r[i - 1] by {
        assert(r[i] == q[i + 1]);
        assert(q[i + 1] != q[i]);
    }
    if r.len() > 0 {
        assert(r[0] == q[1]);
        assert(q[1] != q[0]);
    }
}

impl SBall {
    /// Visits this ball and every ball within `n_depth` flips of it, depth
    /// first, never doing the same flip twice in a row.  Below each ball the
    /// secondary flips come first (ids 6 to 12), then the primary ones (ids 0
    /// to 5).  Where `fn_success` answers `false`, the search does not go
    /// below that ball.
    ///
    /// The visitor is shown exactly the paths of `dfs_visits` from the empty
    /// path, in that order, each once.  Unless it ends done, it has seen every
    /// path of at most `n_depth` flips in which no flip follows itself.
    pub fn find_solution<V: Visitor>(&self, n_depth: usize, fn_success: &mut V)
        requires
            old(fn_success).inv(),
            old(fn_success).origin() == self@,
            self.wf(),
            n_depth <= old(fn_success).limit(),
        ensures
            final(fn_success).inv(),
            final(fn_success).origin() == old(fn_success).origin(),
            final(fn_success).params() == old(fn_success).params(),
            final(fn_success).limit() == old(fn_success).limit(),
            forall|p: Seq<usize>| #[trigger] old(fn_success).seen(p) ==> final(fn_success).seen(p),
            old(fn_success).done() ==> final(fn_success).done(),
            final(fn_success).done() || forall|q: Seq<usize>|
                search_path(q, n_depth as int, 13) ==> #[trigger] final(fn_success).seen(q),
            exists|a: spec_fn(Seq<usize>) -> bool|
                final(fn_success).log() == old(fn_success).log() + with_answers(
                    #[trigger] dfs_visits(Seq::<usize>::empty(), n_depth as nat, 13, a),
                    a,
                ),
    {
        let mut slcn: Vec<usize> = Vec::new();
        proof {
            assert(play_cells(self@, slcn@) == self@);
        }
        let ghost log0 = fn_success.log();
        self.internal_find_solution(n_depth, 13, &mut slcn, fn_success);
        proof {
            let a = choose|a: spec_fn(Seq<usize>) -> bool|
                fn_success.log() == log0 + with_answers(
                    #[trigger] dfs_visits(Seq::<usize>::empty(), n_depth as nat, 13, a),
                    a,
                );
            assert(fn_success.log() == log0 + with_answers(
                dfs_visits(Seq::<usize>::empty(), n_depth as nat, 13, a),
                a,
            ));
            assert forall|q: Seq<usize>|
                !fn_success.done() && search_path(q, n_depth as int, 13) implies #[trigger] fn_success.seen(
                q,
            ) by {
                assert(Seq::<usize>::empty() + q =~= q);
            }
        }
    }

    /// The search below `self`, which the flips `slcn` lead to from the
    /// origin; `n_last` is the last of those flips (13 at the origin).
    ///
    /// The visitor is shown exactly the paths of `dfs_visits` from `slcn`,
    /// in that order: each is `slcn` followed by the flips below it.  Where
    /// it answers `false`, nothing below that path is shown; the paths after
    /// it still are.  `slcn` is as it was when the search returns.
    pub fn internal_find_solution<V: Visitor>(
        &self,
        n_depth: usize,
        n_last: usize,
        slcn: &mut Vec<usize>,
        fn_success: &mut V,
    )
        requires
            old(fn_success).inv(),
            self@ == play_cells(old(fn_success).origin(), old(slcn)@),
            self.wf(),
            valid_flips(old(slcn)@),
            no_repeat(old(slcn)@),
            old(slcn)@.len() > 0 ==> old(slcn)@.last() == n_last,
            old(slcn)@.len() + n_depth <= old(fn_success).limit(),
        ensures
            final(fn_success).inv(),
            final(fn_success).origin() == old(fn_success).origin(),
            final(fn_success).params() == old(fn_success).params(),
            final(fn_success).limit() == old(fn_success).limit(),
            final(slcn)@ == old(slcn)@,
            forall|p: Seq<usize>| #[trigger] old(fn_success).seen(p) ==> final(fn_success).seen(p),
            old(fn_success).done() ==> final(fn_success).done(),
            final(fn_success).done() || forall|q: Seq<usize>|
                search_path(q, n_depth as int, n_last as int) ==> #[trigger] final(fn_success).seen(
                    old(slcn)@ + q,
                ),
            exists|a: spec_fn(Seq<usize>) -> bool|
                final(fn_success).log() == old(fn_success).log() + with_answers(
                    #[trigger] dfs_visits(old(slcn)@, n_depth as nat, n_last as int, a),
                    a,
                ),
        decreases n_depth,
    {
        let ghost path = slcn@;
        let ghost v0 = *fn_success;
        let ghost log0 = fn_success.log();
        let cont = fn_success.visit(self, slcn.as_slice());
        if !cont || n_depth == 0 {
            proof {
                let a = |p: Seq<usize>| cont;
                assert(with_answers(dfs_visits(path, n_depth as nat, n_last as int, a), a) =~= seq![
                    (path, cont),
                ]);
                assert(fn_success.log() =~= log0 + with_answers(
                    dfs_visits(path, n_depth as nat, n_last as int, a),
                    a,
                ));
            }
        }
        if !cont {
            return;
        }
        proof {
            assert(path + Seq::<usize>::empty() =~= path);
        }
        if n_depth == 0 {
            proof {
                assert forall|q: Seq<usize>|
                    !fn_success.done() && search_path(q, n_depth as int, n_last as int) implies #[trigger] fn_success.seen(
                    path + q,
                ) by {
                    assert(q =~= Seq::<usize>::empty());
                }
            }
            return;
        }
        let ghost origin = fn_success.origin();
        let ghost params = fn_success.params();
        let ghost limit = fn_success.limit();
        let ghost mut acc: spec_fn(Seq<usize>) -> bool = |p: Seq<usize>| true;
        proof {
            assert(seq![path] + dfs_children(path, n_depth as nat, n_last as int, acc, 0) =~= seq![
                path,
            ]);
            assert(fn_success.log() =~= log0 + with_answers(
                seq![path] + dfs_children(path, n_depth as nat, n_last as int, acc, 0),
                acc,
            ));
        }
        for n_sec in 0..7
            invariant
                fn_success.inv(),
                fn_success.origin() == origin,
                fn_success.params() == params,
                fn_success.limit() == limit,
                origin == v0.origin(),
                params == v0.params(),
                limit == v0.limit(),
                slcn@ == path,
                self@ == play_cells(origin, path),
                self.wf(),
                valid_flips(path),
                no_repeat(path),
                path.len() > 0 ==> path.last() == n_last,
                path.len() + n_depth <= limit,
                n_depth > 0,
                forall|p: Seq<usize>| #[trigger] v0.seen(p) ==> fn_success.seen(p),
                v0.done() ==> fn_success.done(),
                fn_success.done() || fn_success.seen(path),
                fn_success.done() || forall|q: Seq<usize>|
                    search_path(q, n_depth as int, n_last as int) && q.len() > 0 && 6 <= q[0] < 6
                        + n_sec ==> #[trigger] fn_success.seen(path + q),
                acc(path),
                fn_success.log() == log0 + with_answers(
                    seq![path] + dfs_children(path, n_depth as nat, n_last as int, acc, n_sec as nat),
                    acc,
                ),
        {
            let n_flip = 6 + n_sec;
            if n_flip != n_last {
                let mut ball_next = *self;
                ball_next.secondary_flip(n_sec);
                slcn.push(n_flip);
                proof {
                    lemma_push(path, n_flip, n_last);
                }
                let ghost v1 = *fn_success;
                let ghost log1 = fn_success.log();
                ball_next.internal_find_solution(n_depth - 1, n_flip, slcn, fn_success);
                slcn.pop();
                proof {
                    let a_c = choose|a: spec_fn(Seq<usize>) -> bool|
                        fn_success.log() == log1 + with_answers(
                            #[trigger] dfs_visits(
                                path.push(n_flip),
                                (n_depth - 1) as nat,
                                n_flip as int,
                                a,
                            ),
                            a,
                        );
                    acc = lemma_child_step(
                        path,
                        n_depth as nat,
                        n_last as int,
                        n_sec as nat,
                        acc,
                        a_c,
                        log0,
                        log1,
                        fn_success.log(),
                    );
                    assert(slcn@ =~= path);
                    assert forall|q: Seq<usize>|
                        !fn_success.done() && search_path(q, n_depth as int, n_last as int) && q.len()
                            > 0 && 6 <= q[0] < 6 + n_sec + 1 implies #[trigger] fn_success.seen(
                        path + q,
                    ) by {
                        if q[0] == n_flip {
                            lemma_split_path(path, q, n_depth as int, n_last as int);
                        } else {
                            assert(v1.seen(path + q));
                        }
                    }
                }
            } else {
                proof {
                    acc = lemma_child_step(
                        path,
                        n_depth as nat,
                        n_last as int,
                        n_sec as nat,
                        acc,
                        acc,
                        log0,
                        fn_success.log(),
                        fn_success.log(),
                    );
                    assert forall|q: Seq<usize>|
                        !fn_success.done() && search_path(q, n_depth as int, n_last as int) && q.len()
                            > 0 && 6 <= q[0] < 6 + n_sec + 1 implies #[trigger] fn_success.seen(
                        path + q,
                    ) by {
                        assert(q[0] != n_flip);
                    }
                }
            }
        }
        for n_pri in 0..6
            invariant
                fn_success.inv(),
                fn_success.origin() == origin,
                fn_success.params() == params,
                fn_success.limit() == limit,
                origin == v0.origin(),
                params == v0.params(),
                limit == v0.limit(),
                slcn@ == path,
                self@ == play_cells(origin, path),
                self.wf(),
                valid_flips(path),
                no_repeat(path),
                path.len() > 0 ==> path.last() == n_last,
                path.len() + n_depth <= limit,
                n_depth > 0,
                forall|p: Seq<usize>| #[trigger] v0.seen(p) ==> fn_success.seen(p),
                v0.done() ==> fn_success.done(),
                fn_success.done() || fn_success.seen(path),
                fn_success.done() || forall|q: Seq<usize>|
                    search_path(q, n_depth as int, n_last as int) && q.len() > 0 && (6 <= q[0] < 13
                        || q[0] < n_pri) ==> #[trigger] fn_success.seen(path + q),
                acc(path),
                fn_success.log() == log0 + with_answers(
                    seq![path] + dfs_children(
                        path,
                        n_depth as nat,
                        n_last as int,
                        acc,
                        (7 + n_pri) as nat,
                    ),
                    acc,
                ),
        {
            if n_pri != n_last {
                let mut ball_next = *self;
                ball_next.primary_flip(n_pri);
                slcn.push(n_pri);
                proof {
                    lemma_push(path, n_pri, n_last);
                }
                let ghost v1 = *fn_success;
                let ghost log1 = fn_success.log();
                ball_next.internal_find_solution(n_depth - 1, n_pri, slcn, fn_success);
                slcn.pop();
                proof {
                    let a_c = choose|a: spec_fn(Seq<usize>) -> bool|
                        fn_success.log() == log1 + with_answers(
                            #[trigger] dfs_visits(path.push(n_pri), (n_depth - 1) as nat, n_pri as int, a),
                            a,
                        );
                    acc = lemma_child_step(
                        path,
                        n_depth as nat,
                        n_last as int,
                        (7 + n_pri) as nat,
                        acc,
                        a_c,
                        log0,
                        log1,
                        fn_success.log(),
                    );
                    assert(slcn@ =~= path);
                    assert forall|q: Seq<usize>|
                        !fn_success.done() && search_path(q, n_depth as int, n_last as int) && q.len()
                            > 0 && (6 <= q[0] < 13 || q[0] < n_pri + 1) implies #[trigger] fn_success.seen(
                        path + q,
                    ) by {
                        if q[0] == n_pri {
                            lemma_split_path(path, q, n_depth as int, n_last as int);
                        } else {
                            assert(v1.seen(path + q));
                        }
                    }
                }
            } else {
                proof {
                    acc = lemma_child_step(
                        path,
                        n_depth as nat,
                        n_last as int,
                        (7 + n_pri) as nat,
                        acc,
                        acc,
                        log0,
                        fn_success.log(),
                        fn_success.log(),
                    );
                    assert forall|q: Seq<usize>|
                        !fn_success.done() && search_path(q, n_depth as int, n_last as int) && q.len()
                            > 0 && (6 <= q[0] < 13 || q[0] < n_pri + 1) implies #[trigger] fn_success.seen(
                        path + q,
                    ) by {
                        assert(q[0] != n_pri);
                    }
                }
            }
        }
        proof {
            assert forall|q: Seq<usize>|
                !fn_success.done() && search_path(q, n_depth as int, n_last as int) implies #[trigger] fn_success.seen(
                path + q,
            ) by {
                if q.len() == 0 {
                    assert(path + q =~= path);
                } else {
                    assert(q[0] < 13);
                }
            }
            assert(dfs_visits(path, n_depth as nat, n_last as int, acc) == seq![path]
                + dfs_children(path, n_depth as nat, n_last as int, acc, 13));
        }
    }
}

} // verus!
