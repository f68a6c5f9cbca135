use vstd::prelude::*;

verus! {

use crate::maze::Point;

/// `path` is a non-empty sequence of squares, each linked to the next.
pub open spec fn chain(path: Seq<Point>, link: spec_fn(Point, Point) -> bool) -> bool {
    &&& path.len() >= 1
    &&& forall|i: int| 0 <= i < path.len() - 1 ==> #[trigger] link(path[i], path[i + 1])
}

/// Some chain leads from `a` to `b`.
pub open spec fn linked(a: Point, b: Point, link: spec_fn(Point, Point) -> bool) -> bool {
    exists|path: Seq<Point>| #[trigger] chain(path, link) && path[0] == a && path.last() == b
}

/// A chain extended by one more link.
pub proof fn lemma_chain_push(path: Seq<Point>, b: Point, link: spec_fn(Point, Point) -> bool)
    requires
        chain(path, link),
        link(path.last(), b),
    ensures
        chain(path.push(b), link),
        path.push(b)[0] == path[0],
        path.push(b).last() == b,
{
    let q = path.push(b);
    assert forall|i: int| 0 <= i < q.len() - 1 implies #[trigger] link(q[i], q[i + 1]) by {
        if i < path.len() - 1 {
            assert(q[i] == path[i] && q[i + 1] == path[i + 1]);
        }
    }
}

pub proof fn lemma_linked_refl(a: Point, link: spec_fn(Point, Point) -> bool)
    ensures
        linked(a, a, link),
{
    let path = seq![a];
    assert(chain(path, link));
}

pub proof fn lemma_linked_push(a: Point, b: Point, c: Point, link: spec_fn(Point, Point) -> bool)
    requires
        linked(a, b, link),
        link(b, c),
    ensures
        linked(a, c, link),
{
    let path = choose|path: Seq<Point>| #[trigger] chain(path, link) && path[0] == a && path.last() == b;
    lemma_chain_push(path, c, link);
    assert(chain(path.push(c), link));
}

/// Two chains joined end to start.
pub proof fn lemma_linked_trans(a: Point, b: Point, c: Point, link: spec_fn(Point, Point) -> bool)
    requires
        linked(a, b, link),
        linked(b, c, link),
    ensures
        linked(a, c, link),
{
    let p1 = choose|path: Seq<Point>| #[trigger] chain(path, link) && path[0] == a && path.last() == b;
    let p2 = choose|path: Seq<Point>| #[trigger] chain(path, link) && path[0] == b && path.last() == c;
    let q = p1 + p2.drop_first();
    assert forall|i: int| 0 <= i < q.len() - 1 implies #[trigger] link(q[i], q[i + 1]) by {
        if i < p1.len() - 1 {
            assert(q[i] == p1[i] && q[i + 1] == p1[i + 1]);
        } else if i == p1.len() - 1 {
            assert(q[i] == p1.last() && q[i + 1] == p2[1]);
            assert(link(p2[0int], p2[0int + 1]));
        } else {
            let k = i - p1.len() + 1;
            assert(q[i] == p2[k] && q[i + 1] == p2[k + 1]);
        }
    }
    if p2.len() == 1 {
        assert(q =~= p1);
    }
    assert(chain(q, link) && q[0] == a && q.last() == c);
}

/// A chain read backward, for a symmetric link.
pub proof fn lemma_linked_sym(a: Point, b: Point, link: spec_fn(Point, Point) -> bool)
    requires
        linked(a, b, link),
        forall|x: Point, y: Point| #[trigger] link(x, y) ==> link(y, x),
    ensures
        linked(b, a, link),
{
    let p = choose|path: Seq<Point>| #[trigger] chain(path, link) && path[0] == a && path.last() == b;
    let q = p.reverse();
    assert forall|i: int| 0 <= i < q.len() - 1 implies #[trigger] link(q[i], q[i + 1]) by {
        let k = p.len() - 2 - i;
        assert(q[i] == p[k + 1] && q[i + 1] == p[k]);
        assert(link(p[k], p[k + 1]));
    }
    assert(chain(q, link) && q[0] == b && q.last() == a);
}

/// A chain for one link is a chain for any weaker link.
pub proof fn lemma_linked_mono(a: Point, b: Point, l1: spec_fn(Point, Point) -> bool, l2: spec_fn(Point, Point) -> bool)
    requires
        linked(a, b, l1),
        forall|x: Point, y: Point| #[trigger] l1(x, y) ==> l2(x, y),
    ensures
        linked(a, b, l2),
{
    let p = choose|path: Seq<Point>| #[trigger] chain(path, l1) && path[0] == a && path.last() == b;
    assert forall|i: int| 0 <= i < p.len() - 1 implies #[trigger] l2(p[i], p[i + 1]) by {
        assert(l1(p[i], p[i + 1]));
    }
    assert(chain(p, l2));
}

/// A set closed under the link holds everything linked from its members.
pub proof fn lemma_closed_holds(a: Point, b: Point, link: spec_fn(Point, Point) -> bool, s: spec_fn(Point) -> bool)
    requires
        linked(a, b, link),
        s(a),
        forall|x: Point, y: Point| s(x) && #[trigger] link(x, y) ==> s(y),
    ensures
        s(b),
{
    let p = choose|path: Seq<Point>| #[trigger] chain(path, link) && path[0] == a && path.last() == b;
    lemma_closed_prefix(p, p.len() - 1, link, s);
}

proof fn lemma_closed_prefix(p: Seq<Point>, k: int, link: spec_fn(Point, Point) -> bool, s: spec_fn(Point) -> bool)
    requires
        chain(p, link),
        0 <= k < p.len(),
        s(p[0]),
        forall|x: Point, y: Point| s(x) && #[trigger] link(x, y) ==> s(y),
    ensures
        s(p[k]),
    decreases k,
{
    if k > 0 {
        lemma_closed_prefix(p, k - 1, link, s);
        assert(link(p[k - 1], p[k - 1 + 1]));
    }
}

} // verus!
