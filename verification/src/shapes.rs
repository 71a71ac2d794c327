use vstd::prelude::*;

use crate::geometry::{
    connects, has_plain, has_special, link, plain_link, spec_connects, special_link, Direction,
};
use crate::object::Object;

verus! {

/// `p` is a walk over the segments of `objs` that stay inside the active set
/// `act`, each consecutive pair joined by matching ends.
pub open spec fn path_ok(objs: Seq<Object>, act: Seq<bool>, p: Seq<int>) -> bool {
    &&& p.len() > 0
    &&& forall|k: int| 0 <= k < p.len() ==> 0 <= #[trigger] p[k] < objs.len() && act[p[k]]
    &&& forall|k: int|
        0 <= k < p.len() - 1 ==> spec_connects(objs[#[trigger] p[k]], objs[p[k + 1]])
}

/// Segment `j` can be reached from segment `i` through joined ends without
/// leaving the active set: the transitive closure of [`spec_connects`].
#[verifier::opaque]
pub open spec fn reachable(objs: Seq<Object>, act: Seq<bool>, i: int, j: int) -> bool {
    exists|p: Seq<int>| path_ok(objs, act, p) && p.first() == i && p.last() == j
}

pub proof fn lemma_reachable_refl(objs: Seq<Object>, act: Seq<bool>, i: int)
    requires
        0 <= i < objs.len(),
        0 <= i < act.len(),
        act[i],
    ensures
        reachable(objs, act, i, i),
{
    reveal(reachable);
    let p: Seq<int> = seq![i];
    assert(path_ok(objs, act, p));
    assert(p.first() == i && p.last() == i);
}

pub proof fn lemma_reachable_step(objs: Seq<Object>, act: Seq<bool>, i: int, j: int, k: int)
    requires
        reachable(objs, act, i, j),
        0 <= k < objs.len(),
        0 <= k < act.len(),
        act[k],
        spec_connects(objs[j], objs[k]),
    ensures
        reachable(objs, act, i, k),
{
    reveal(reachable);
    let p = choose|p: Seq<int>| path_ok(objs, act, p) && p.first() == i && p.last() == j;
    let q = p.push(k);
    assert forall|n: int| 0 <= n < q.len() - 1 implies spec_connects(
        objs[#[trigger] q[n]],
        objs[q[n + 1]],
    ) by {
        if n < p.len() - 1 {
            assert(q[n] == p[n] && q[n + 1] == p[n + 1]);
        } else {
            assert(q[n] == p.last() && q[n + 1] == k);
        }
    }
    assert(path_ok(objs, act, q));
    assert(q.first() == i && q.last() == k);
}

/// Every walk that starts inside a set closed under joining stays inside it.
proof fn lemma_closed_path(
    objs: Seq<Object>,
    act: Seq<bool>,
    vis: Seq<bool>,
    p: Seq<int>,
    n: int,
)
    requires
        vis.len() == objs.len(),
        act.len() == objs.len(),
        path_ok(objs, act, p),
        vis[p.first()],
        forall|a: int, b: int|
            0 <= a < objs.len() && 0 <= b < objs.len() && #[trigger] vis[a] && act[b] && !(
            #[trigger] vis[b]) ==> !spec_connects(objs[a], objs[b]),
        0 <= n < p.len(),
    ensures
        vis[p[n]],
    decreases n,
{
    if n > 0 {
        lemma_closed_path(objs, act, vis, p, n - 1);
        assert(spec_connects(objs[p[n - 1]], objs[p[n]]));
        if !vis[p[n]] {
            assert(false);
        }
    }
}

/// A set closed under joining that holds `i` holds everything reachable
/// from `i`.
pub proof fn lemma_closed_reachable(
    objs: Seq<Object>,
    act: Seq<bool>,
    vis: Seq<bool>,
    i: int,
    j: int,
)
    requires
        vis.len() == objs.len(),
        act.len() == objs.len(),
        0 <= i < objs.len(),
        vis[i],
        forall|a: int, b: int|
            0 <= a < objs.len() && 0 <= b < objs.len() && #[trigger] vis[a] && act[b] && !(
            #[trigger] vis[b]) ==> !spec_connects(objs[a], objs[b]),
        reachable(objs, act, i, j),
    ensures
        0 <= j < objs.len() && vis[j],
{
    reveal(reachable);
    let p = choose|p: Seq<int>| path_ok(objs, act, p) && p.first() == i && p.last() == j;
    lemma_closed_path(objs, act, vis, p, p.len() - 1);
}

/// How many entries of `s` are set.
pub open spec fn count_true(s: Seq<bool>) -> int
    decreases s.len(),
{
    if s.len() == 0 {
        0
    } else {
        count_true(s.drop_last()) + if s.last() {
            1int
        } else {
            0int
        }
    }
}

pub proof fn lemma_count_true_bounds(s: Seq<bool>)
    ensures
        0 <= count_true(s) <= s.len(),
    decreases s.len(),
{
    if s.len() > 0 {
        lemma_count_true_bounds(s.drop_last());
    }
}

pub proof fn lemma_count_true_update(s: Seq<bool>, i: int)
    requires
        0 <= i < s.len(),
        !s[i],
    ensures
        count_true(s.update(i, true)) == count_true(s) + 1,
    decreases s.len(),
{
    let t = s.update(i, true);
    if i == s.len() - 1 {
        assert(t.drop_last() =~= s.drop_last());
    } else {
        assert(t.drop_last() =~= s.drop_last().update(i, true));
        lemma_count_true_update(s.drop_last(), i);
    }
}

/// Collect the connected component of `seed` among the segments marked in
/// `act`: flood fill along matching ends.  The result marks exactly the
/// active segments reachable from the seed.
#[verifier::rlimit(80)]
pub fn component(objs: &Vec<Object>, act: &Vec<bool>, seed: usize) -> (vis: Vec<bool>)
    requires
        objs.len() == act.len(),
        seed < objs.len(),
        act[seed as int],
    ensures
        vis.len() == objs.len(),
        forall|j: int|
            0 <= j < objs.len() ==> (#[trigger] vis[j] <==> (act[j] && reachable(
                objs@,
                act@,
                seed as int,
                j,
            ))),
{
    let n = objs.len();
    let mut vis: Vec<bool> = Vec::new();
    let mut i: usize = 0;
    while i < n
        invariant
            vis.len() == i,
            i <= n,
            forall|j: int| 0 <= j < i ==> !(#[trigger] vis[j]),
        decreases n - i,
    {
        vis.push(false);
        i += 1;
    }
    let mut stack: Vec<usize> = Vec::new();
    vis.set(seed, true);
    stack.push(seed);
    proof {
        lemma_reachable_refl(objs@, act@, seed as int);
        lemma_count_true_bounds(vis@);
        assert(stack@[0] == seed);
        assert(stack@.contains(seed));
    }
    while stack.len() > 0
        invariant
            objs.len() == n,
            act.len() == n,
            vis.len() == n,
            seed < n,
            vis[seed as int],
            count_true(vis@) <= n,
            forall|k: int| 0 <= k < stack.len() ==> #[trigger] stack[k] < n,
            forall|k: int| 0 <= k < stack.len() ==> vis[#[trigger] stack[k] as int],
            forall|k1: int, k2: int|
                0 <= k1 < k2 < stack.len() ==> #[trigger] stack[k1] != #[trigger] stack[k2],
            forall|j: int| 0 <= j < n && #[trigger] vis[j] ==> act[j],
            forall|j: int|
                0 <= j < n && #[trigger] vis[j] ==> reachable(objs@, act@, seed as int, j),
            forall|a: int, b: int|
                0 <= a < n && 0 <= b < n && #[trigger] vis[a] && !stack@.contains(a as usize)
                    && act[b] && !(#[trigger] vis[b]) ==> !spec_connects(objs@[a], objs@[b]),
        decreases 2 * (n - count_true(vis@)) + stack.len(),
    {
        let ghost pre_stack = stack@;
        let ghost pre_vis = vis@;
        let i = stack.pop().unwrap();
        proof {
            assert(stack@ =~= pre_stack.drop_last());
            assert(i == pre_stack[pre_stack.len() - 1]);
            assert(!stack@.contains(i)) by {
                if stack@.contains(i) {
                    let k = choose|k: int| 0 <= k < stack@.len() && stack@[k] == i;
                    assert(pre_stack[k] == i && pre_stack[pre_stack.len() - 1] == i);
                }
            }
            assert forall|a: usize| !stack@.contains(a) && a != i implies !pre_stack.contains(
                a,
            ) by {
                if pre_stack.contains(a) {
                    let k = choose|k: int| 0 <= k < pre_stack.len() && pre_stack[k] == a;
                    if k < pre_stack.len() - 1 {
                        assert(stack@[k] == a);
                    }
                }
            }
        }
        let mut j: usize = 0;
        while j < n
            invariant
                objs.len() == n,
                act.len() == n,
                vis.len() == n,
                seed < n,
                i < n,
                j <= n,
                vis[seed as int],
                vis[i as int],
                count_true(vis@) <= n,
                !stack@.contains(i),
                forall|k: int| 0 <= k < stack.len() ==> #[trigger] stack[k] < n,
                forall|k: int| 0 <= k < stack.len() ==> vis[#[trigger] stack[k] as int],
                forall|k1: int, k2: int|
                    0 <= k1 < k2 < stack.len() ==> #[trigger] stack[k1] != #[trigger] stack[k2],
                forall|jj: int| 0 <= jj < n && #[trigger] vis[jj] ==> act[jj],
                forall|jj: int|
                    0 <= jj < n && #[trigger] vis[jj] ==> reachable(objs@, act@, seed as int, jj),
                forall|a: int, b: int|
                    0 <= a < n && 0 <= b < n && #[trigger] vis[a] && !stack@.contains(a as usize)
                        && a != i as int && act[b] && !(#[trigger] vis[b]) ==> !spec_connects(
                        objs@[a],
                        objs@[b],
                    ),
                forall|b: int|
                    0 <= b < j && act[b] && !(#[trigger] vis[b]) ==> !spec_connects(
                        objs@[i as int],
                        objs@[b],
                    ),
                2 * (n - count_true(vis@)) + stack@.len() <= 2 * (n - count_true(pre_vis))
                    + pre_stack.len() - 1,
            decreases n - j,
        {
            if act[j] && !vis[j] && connects(&objs[i], &objs[j]) {
                proof {
                    lemma_reachable_step(objs@, act@, seed as int, i as int, j as int);
                    lemma_count_true_update(vis@, j as int);
                }
                let ghost mid_stack = stack@;
                vis.set(j, true);
                stack.push(j);
                proof {
                    lemma_count_true_bounds(vis@);
                    assert(stack@ =~= mid_stack.push(j));
                    assert forall|a: usize| !stack@.contains(a) implies !mid_stack.contains(a) by {
                        if mid_stack.contains(a) {
                            let k = choose|k: int| 0 <= k < mid_stack.len() && mid_stack[k] == a;
                            assert(stack@[k] == a);
                        }
                    }
                    assert(stack@[stack@.len() - 1] == j);
                    assert(stack@.contains(j));
                }
            }
            j += 1;
        }
    }
    proof {
        assert forall|j: int|
            0 <= j < n && act@[j] && reachable(objs@, act@, seed as int, j) implies vis@[j] by {
            lemma_closed_reachable(objs@, act@, vis@, seed as int, j);
        }
    }
    vis
}

/// Direction `d`'s plain end of `o` (if any) meets a plain end somewhere in
/// the collection.
pub open spec fn end_matched_plain(objs: Seq<Object>, o: Object, d: Direction) -> bool {
    exists|j: int| 0 <= j < objs.len() && plain_link(o, #[trigger] objs[j], d)
}

/// Direction `d`'s special end of `o` (if any) meets a special end of the
/// same kind somewhere in the collection.
pub open spec fn end_matched_special(objs: Seq<Object>, o: Object, d: Direction) -> bool {
    exists|j: int| 0 <= j < objs.len() && special_link(o, #[trigger] objs[j], d)
}

/// Every set bit of `o`, plain or special, has a correctly matching
/// neighbor in the collection; any dangling end makes it false.
pub open spec fn spec_object_complete(objs: Seq<Object>, o: Object) -> bool {
    forall|d: Direction|
        #[trigger] d.spec_is_orthogonal() ==> ((has_plain(o.connectors, d) ==> end_matched_plain(
            objs,
            o,
            d,
        )) && (has_special(o.connectors, d) ==> end_matched_special(objs, o, d)))
}

fn find_plain(objs: &Vec<Object>, o: &Object, d: Direction) -> (r: bool)
    ensures
        r == end_matched_plain(objs@, *o, d),
{
    let mut j: usize = 0;
    while j < objs.len()
        invariant
            j <= objs.len(),
            forall|k: int| 0 <= k < j ==> !plain_link(*o, #[trigger] objs@[k], d),
        decreases objs.len() - j,
    {
        if plain_link_exec(o, &objs[j], d) {
            return true;
        }
        j += 1;
    }
    false
}

fn find_special(objs: &Vec<Object>, o: &Object, d: Direction) -> (r: bool)
    ensures
        r == end_matched_special(objs@, *o, d),
{
    let mut j: usize = 0;
    while j < objs.len()
        invariant
            j <= objs.len(),
            forall|k: int| 0 <= k < j ==> !special_link(*o, #[trigger] objs@[k], d),
        decreases objs.len() - j,
    {
        if special_link_exec(o, &objs[j], d) {
            return true;
        }
        j += 1;
    }
    false
}

fn plain_link_exec(a: &Object, b: &Object, d: Direction) -> (r: bool)
    ensures
        r == plain_link(*a, *b, d),
{
    let (dx, dy): (i32, i32) = dir_delta_pub(d);
    let (pm, pmo): (i32, i32) = match d {
        Direction::Up => (8, 2),
        Direction::Right => (4, 1),
        Direction::Down => (2, 8),
        Direction::Left => (1, 4),
        Direction::UpRight => (0, 0),
        Direction::DownRight => (0, 0),
        Direction::DownLeft => (0, 0),
        Direction::UpLeft => (0, 0),
    };
    (a.connectors & pm) == pm && (b.connectors & pmo) == pmo && b.pos.0 as i32 == a.pos.0 as i32
        + dx && b.pos.1 as i32 == a.pos.1 as i32 + dy
}

fn special_link_exec(a: &Object, b: &Object, d: Direction) -> (r: bool)
    ensures
        r == special_link(*a, *b, d),
{
    let (dx, dy): (i32, i32) = dir_delta_pub(d);
    let (sm, smo): (i32, i32) = match d {
        Direction::Up => (128, 32),
        Direction::Right => (64, 16),
        Direction::Down => (32, 128),
        Direction::Left => (16, 64),
        Direction::UpRight => (0, 0),
        Direction::DownRight => (0, 0),
        Direction::DownLeft => (0, 0),
        Direction::UpLeft => (0, 0),
    };
    (a.connectors & sm) == sm && (b.connectors & smo) == smo && crate::geometry::kind_eq(
        a.kind,
        b.kind,
    ) && b.pos.0 as i32 == a.pos.0 as i32 + dx && b.pos.1 as i32 == a.pos.1 as i32 + dy
}

/// The unit step of a direction as machine integers.
pub fn dir_delta_pub(d: Direction) -> (r: (i32, i32))
    ensures
        r.0 as int == d.spec_delta().0,
        r.1 as int == d.spec_delta().1,
{
    match d {
        Direction::Up => (0, -1),
        Direction::UpRight => (1, -1),
        Direction::Right => (1, 0),
        Direction::DownRight => (1, 1),
        Direction::Down => (0, 1),
        Direction::DownLeft => (-1, 1),
        Direction::Left => (-1, 0),
        Direction::UpLeft => (-1, -1),
    }
}

/// Decides [`spec_object_complete`]: every end of `o` is matched within
/// `objs`.
pub fn object_complete(objs: &Vec<Object>, o: &Object) -> (r: bool)
    ensures
        r == spec_object_complete(objs@, *o),
{
    let r = (!has_plain_exec(o.connectors, Direction::Up) || find_plain(objs, o, Direction::Up))
        && (!has_special_exec(o.connectors, Direction::Up) || find_special(objs, o, Direction::Up))
        && (!has_plain_exec(o.connectors, Direction::Right) || find_plain(
        objs,
        o,
        Direction::Right,
    )) && (!has_special_exec(o.connectors, Direction::Right) || find_special(
        objs,
        o,
        Direction::Right,
    )) && (!has_plain_exec(o.connectors, Direction::Down) || find_plain(objs, o, Direction::Down))
        && (!has_special_exec(o.connectors, Direction::Down) || find_special(
        objs,
        o,
        Direction::Down,
    )) && (!has_plain_exec(o.connectors, Direction::Left) || find_plain(objs, o, Direction::Left))
        && (!has_special_exec(o.connectors, Direction::Left) || find_special(
        objs,
        o,
        Direction::Left,
    ));
    proof {
        if r {
            assert forall|d: Direction| #[trigger]
                d.spec_is_orthogonal() implies ((has_plain(o.connectors, d)
                ==> end_matched_plain(objs@, *o, d)) && (has_special(o.connectors, d)
                ==> end_matched_special(objs@, *o, d))) by {
                assert(d == Direction::Up || d == Direction::Right || d == Direction::Down || d
                    == Direction::Left);
            }
        } else {
            assert(Direction::Up.spec_is_orthogonal());
            assert(Direction::Right.spec_is_orthogonal());
            assert(Direction::Down.spec_is_orthogonal());
            assert(Direction::Left.spec_is_orthogonal());
        }
    }
    r
}

fn has_plain_exec(c: i32, d: Direction) -> (r: bool)
    ensures
        r == has_plain(c, d),
{
    let pm: i32 = match d {
        Direction::Up => 8,
        Direction::Right => 4,
        Direction::Down => 2,
        Direction::Left => 1,
        Direction::UpRight => 0,
        Direction::DownRight => 0,
        Direction::DownLeft => 0,
        Direction::UpLeft => 0,
    };
    (c & pm) == pm
}

fn has_special_exec(c: i32, d: Direction) -> (r: bool)
    ensures
        r == has_special(c, d),
{
    let sm: i32 = match d {
        Direction::Up => 128,
        Direction::Right => 64,
        Direction::Down => 32,
        Direction::Left => 16,
        Direction::UpRight => 0,
        Direction::DownRight => 0,
        Direction::DownLeft => 0,
        Direction::UpLeft => 0,
    };
    (c & sm) == sm
}


/// Reachability is symmetric: walks reverse, since joining is symmetric.
pub proof fn lemma_reachable_sym(objs: Seq<Object>, act: Seq<bool>, i: int, j: int)
    requires
        reachable(objs, act, i, j),
    ensures
        reachable(objs, act, j, i),
{
    reveal(reachable);
    let p = choose|p: Seq<int>| path_ok(objs, act, p) && p.first() == i && p.last() == j;
    let q = Seq::new(p.len(), |k: int| p[p.len() - 1 - k]);
    assert forall|n: int| 0 <= n < q.len() - 1 implies spec_connects(
        objs[#[trigger] q[n]],
        objs[q[n + 1]],
    ) by {
        let m = p.len() - 2 - n;
        assert(q[n] == p[m + 1] && q[n + 1] == p[m]);
        assert(spec_connects(objs[p[m]], objs[p[m + 1]]));
        crate::geometry::lemma_connects_symmetric(objs[p[m]], objs[p[m + 1]]);
    }
    assert(path_ok(objs, act, q));
    assert(q.first() == j && q.last() == i);
}

/// Reachability is transitive: walks concatenate.
pub proof fn lemma_reachable_trans(objs: Seq<Object>, act: Seq<bool>, i: int, j: int, k: int)
    requires
        reachable(objs, act, i, j),
        reachable(objs, act, j, k),
    ensures
        reachable(objs, act, i, k),
{
    reveal(reachable);
    let p1 = choose|p: Seq<int>| path_ok(objs, act, p) && p.first() == i && p.last() == j;
    let p2 = choose|p: Seq<int>| path_ok(objs, act, p) && p.first() == j && p.last() == k;
    let q = p1 + p2.drop_first();
    assert forall|n: int| 0 <= n < q.len() implies 0 <= #[trigger] q[n] < objs.len()
        && act[q[n]] by {
        if n < p1.len() {
            assert(q[n] == p1[n]);
        } else {
            assert(q[n] == p2[n - p1.len() + 1]);
        }
    }
    assert forall|n: int| 0 <= n < q.len() - 1 implies spec_connects(
        objs[#[trigger] q[n]],
        objs[q[n + 1]],
    ) by {
        if n + 1 < p1.len() {
            assert(q[n] == p1[n] && q[n + 1] == p1[n + 1]);
        } else if n + 1 == p1.len() {
            assert(q[n] == p1[p1.len() - 1] && p1.last() == j && p2.first() == j);
            assert(q[n + 1] == p2[1]);
            assert(spec_connects(objs[p2[0]], objs[p2[1]]));
        } else {
            let m = n - p1.len();
            assert(q[n] == p2[m + 1] && q[n + 1] == p2[m + 2]);
            assert(spec_connects(objs[p2[m + 1]], objs[p2[m + 2]]));
        }
    }
    assert(path_ok(objs, act, q));
    assert(q.first() == i && q.last() == k);
}

/// Reachability ignores the group ids: two collections that agree on every
/// segment's ends, kind and cell have the same walks.
pub proof fn lemma_reachable_same_geometry(
    s1: Seq<Object>,
    s2: Seq<Object>,
    act: Seq<bool>,
    i: int,
    j: int,
)
    requires
        s1.len() == s2.len(),
        forall|k: int|
            0 <= k < s1.len() ==> (#[trigger] s1[k]).connectors == s2[k].connectors && s1[k].kind
                == s2[k].kind && s1[k].pos == s2[k].pos,
        reachable(s1, act, i, j),
    ensures
        reachable(s2, act, i, j),
{
    reveal(reachable);
    let p = choose|p: Seq<int>| path_ok(s1, act, p) && p.first() == i && p.last() == j;
    assert forall|n: int| 0 <= n < p.len() - 1 implies spec_connects(
        s2[#[trigger] p[n]],
        s2[p[n + 1]],
    ) by {
        let a = s1[p[n]];
        let b = s1[p[n + 1]];
        assert(spec_connects(a, b));
        let d = choose|d: Direction| link(a, b, d);
        assert(link(s2[p[n]], s2[p[n + 1]], d));
    }
    assert(path_ok(s2, act, p));
}

} // verus!
