use vstd::prelude::*;

use crate::object::Object;

verus! {

/// One of the eight directions the cursor can step in; shape moves and
/// connector ends use only the four cardinal ones.
#[derive(Clone, Copy, Debug, PartialEq, Eq, Structural)]
pub enum Direction {
    Up,
    UpRight,
    Right,
    DownRight,
    Down,
    DownLeft,
    Left,
    UpLeft,
}

impl Direction {
    /// True for the four cardinal directions.
    pub fn is_orthogonal(&self) -> (r: bool)
        ensures
            r == self.spec_is_orthogonal(),
    {
        match self {
            Direction::Up | Direction::Right | Direction::Down | Direction::Left => true,
            _ => false,
        }
    }

    pub open spec fn spec_is_orthogonal(self) -> bool {
        self is Up || self is Right || self is Down || self is Left
    }

    /// The direction a matching end must face: Up pairs with Down and Left
    /// with Right (and likewise for the diagonals).
    pub open spec fn spec_opposite(self) -> Direction {
        match self {
            Direction::Up => Direction::Down,
            Direction::UpRight => Direction::DownLeft,
            Direction::Right => Direction::Left,
            Direction::DownRight => Direction::UpLeft,
            Direction::Down => Direction::Up,
            Direction::DownLeft => Direction::UpRight,
            Direction::Left => Direction::Right,
            Direction::UpLeft => Direction::DownRight,
        }
    }

    /// The per-axis step of this direction: x grows rightward, y grows
    /// downward (screen coordinates).
    pub open spec fn spec_delta(self) -> (int, int) {
        match self {
            Direction::Up => (0, -1),
            Direction::UpRight => (1, -1),
            Direction::Right => (1, 0),
            Direction::DownRight => (1, 1),
            Direction::Down => (0, 1),
            Direction::DownLeft => (-1, 1),
            Direction::Left => (-1, 0),
            Direction::UpLeft => (-1, -1),
        }
    }
}

/// The plain-end bit of a cardinal direction: Up 8, Right 4, Down 2, Left 1.
pub open spec fn plain_mask(d: Direction) -> i32 {
    match d {
        Direction::Up => 8,
        Direction::Right => 4,
        Direction::Down => 2,
        Direction::Left => 1,
        _ => 0,
    }
}

/// The special-end bit of a cardinal direction: the plain bit shifted into
/// the high nibble (Up 128, Right 64, Down 32, Left 16).
pub open spec fn special_mask(d: Direction) -> i32 {
    match d {
        Direction::Up => 128,
        Direction::Right => 64,
        Direction::Down => 32,
        Direction::Left => 16,
        _ => 0,
    }
}

/// Does mask `c` carry a plain end facing `d`?
pub open spec fn has_plain(c: i32, d: Direction) -> bool {
    c & plain_mask(d) == plain_mask(d)
}

/// Does mask `c` carry a special end facing `d`?
pub open spec fn has_special(c: i32, d: Direction) -> bool {
    c & special_mask(d) == special_mask(d)
}

/// Is `q` exactly the cell one step in direction `d` from `p`?
pub open spec fn is_step(p: (u16, u16), d: Direction, q: (u16, u16)) -> bool {
    q.0 as int == p.0 as int + d.spec_delta().0 && q.1 as int == p.1 as int + d.spec_delta().1
}

/// A plain end of `a` facing `d` meets a plain end of `b` facing back.
/// Plain ends join regardless of the segments' kinds.
pub open spec fn plain_link(a: Object, b: Object, d: Direction) -> bool {
    has_plain(a.connectors, d) && has_plain(b.connectors, d.spec_opposite()) && is_step(
        a.pos,
        d,
        b.pos,
    )
}

/// A special end of `a` facing `d` meets a special end of `b` facing back,
/// and both segments are of the same kind class.
pub open spec fn special_link(a: Object, b: Object, d: Direction) -> bool {
    has_special(a.connectors, d) && has_special(b.connectors, d.spec_opposite()) && a.kind
        == b.kind && is_step(a.pos, d, b.pos)
}

/// `a` joins `b` through direction `d` (a cardinal direction, by either a
/// plain or a special pair of ends).
pub open spec fn link(a: Object, b: Object, d: Direction) -> bool {
    d.spec_is_orthogonal() && (plain_link(a, b, d) || special_link(a, b, d))
}

/// `a` and `b` stand one grid step apart in some direction in which both
/// present matching ends of the same class.
pub open spec fn spec_connects(a: Object, b: Object) -> bool {
    exists|d: Direction| link(a, b, d)
}

/// Joining is symmetric: whatever links `a` to `b` through `d` links `b`
/// to `a` through the complementary direction.
pub proof fn lemma_link_symmetric(a: Object, b: Object, d: Direction)
    ensures
        link(a, b, d) == link(b, a, d.spec_opposite()),
{
}

/// `connects` is symmetric under swapping its arguments.
pub proof fn lemma_connects_symmetric(a: Object, b: Object)
    ensures
        spec_connects(a, b) == spec_connects(b, a),
{
    if spec_connects(a, b) {
        let d = choose|d: Direction| link(a, b, d);
        lemma_link_symmetric(a, b, d);
        assert(link(b, a, d.spec_opposite()));
    }
    if spec_connects(b, a) {
        let d = choose|d: Direction| link(b, a, d);
        lemma_link_symmetric(b, a, d);
        assert(link(a, b, d.spec_opposite()));
    }
}

/// Decides [`spec_connects`]: used for merging after a move, for grouping a
/// parsed level into shapes, and for re-partitioning after a door opens.
pub fn connects(a: &Object, b: &Object) -> (r: bool)
    ensures
        r == spec_connects(*a, *b),
{
    let r = link_exec(a, b, Direction::Up) || link_exec(a, b, Direction::Right) || link_exec(
        a,
        b,
        Direction::Down,
    ) || link_exec(a, b, Direction::Left);
    proof {
        if !r {
            assert forall|d: Direction| !link(*a, *b, d) by {
                if d.spec_is_orthogonal() {
                    assert(!link(*a, *b, Direction::Up));
                    assert(!link(*a, *b, Direction::Right));
                    assert(!link(*a, *b, Direction::Down));
                    assert(!link(*a, *b, Direction::Left));
                }
            }
        }
    }
    r
}

/// Decides [`link`] for one direction.
pub fn link_exec(a: &Object, b: &Object, d: Direction) -> (r: bool)
    ensures
        r == link(*a, *b, d),
{
    if !d.is_orthogonal() {
        return false;
    }
    let (dx, dy): (i32, i32) = match d {
        Direction::Up => (0, -1),
        Direction::Right => (1, 0),
        Direction::Down => (0, 1),
        Direction::Left => (-1, 0),
        _ => (0, 0),
    };
    let placed = b.pos.0 as i32 == a.pos.0 as i32 + dx && b.pos.1 as i32 == a.pos.1 as i32 + dy;
    if !placed {
        return false;
    }
    let (pm, sm): (i32, i32) = match d {
        Direction::Up => (8, 128),
        Direction::Right => (4, 64),
        Direction::Down => (2, 32),
        Direction::Left => (1, 16),
        _ => (0, 0),
    };
    let (pmo, smo): (i32, i32) = match d {
        Direction::Up => (2, 32),
        Direction::Right => (1, 16),
        Direction::Down => (8, 128),
        Direction::Left => (4, 64),
        _ => (0, 0),
    };
    let plain_ok = (a.connectors & pm) == pm && (b.connectors & pmo) == pmo;
    let special_ok = (a.connectors & sm) == sm && (b.connectors & smo) == smo && kind_eq(
        a.kind,
        b.kind,
    );
    plain_ok || special_ok
}

/// Decides equality of two kind classifications.
pub fn kind_eq(a: crate::object::Kind, b: crate::object::Kind) -> (r: bool)
    ensures
        r == (a == b),
{
    a == b
}

} // verus!
