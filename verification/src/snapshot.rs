//! Entity snapshots: the per-tick, immutable picture of one entity.

use vstd::prelude::*;

verus! {

/// Three single-precision components, each held as its IEEE-754 bit pattern.
///
/// Two values are equal exactly when their bits are equal, so a NaN payload or
/// the sign of a zero is never lost.
#[derive(Clone, Copy, Debug, PartialEq, Eq, Structural)]
pub struct Vec3 {
    pub x: u32,
    pub y: u32,
    pub z: u32,
}

/// The state of one entity at the end of a tick.
#[derive(Clone, Copy, Debug, PartialEq, Eq, Structural)]
pub struct EntitySnapshot {
    pub id: u64,
    pub pos: Vec3,
    pub vel: Vec3,
    pub size: Vec3,
}

impl Vec3 {
    /// Builds a vector from the bit patterns of its three components.
    pub fn new(x: u32, y: u32, z: u32) -> (v: Vec3)
        ensures
            v == (Vec3 { x, y, z }),
    {
        Vec3 { x, y, z }
    }
}

/// `a` comes strictly before `b`, component by component from `x` to `z`.
pub open spec fn vec3_before(a: Vec3, b: Vec3) -> bool {
    a.x < b.x || (a.x == b.x && (a.y < b.y || (a.y == b.y && a.z < b.z)))
}

/// `a` comes strictly before `b`: by id first, then by position, velocity and
/// size.
pub open spec fn snapshot_before(a: EntitySnapshot, b: EntitySnapshot) -> bool {
    a.id < b.id || (a.id == b.id && (vec3_before(a.pos, b.pos) || (a.pos == b.pos && (vec3_before(
        a.vel,
        b.vel,
    ) || (a.vel == b.vel && vec3_before(a.size, b.size))))))
}

/// `a` is `b` or comes before it.
pub open spec fn snapshot_le(a: EntitySnapshot, b: EntitySnapshot) -> bool {
    a == b || snapshot_before(a, b)
}

/// The order in which snapshots are digested.
pub open spec fn snapshot_order() -> spec_fn(EntitySnapshot, EntitySnapshot) -> bool {
    |a: EntitySnapshot, b: EntitySnapshot| snapshot_le(a, b)
}

/// The digest order is a total order on snapshots.
pub proof fn lemma_snapshot_order_total()
    ensures
        vstd::relations::total_ordering(snapshot_order()),
{
    let r = snapshot_order();
    assert(vstd::relations::reflexive(r));
    assert(vstd::relations::antisymmetric(r)) by {
        assert forall|x: EntitySnapshot, y: EntitySnapshot| #[trigger]
            r(x, y) && #[trigger] r(y, x) implies x == y by {
            assert(snapshot_le(x, y) && snapshot_le(y, x));
        }
    }
    assert(vstd::relations::transitive(r)) by {
        assert forall|x: EntitySnapshot, y: EntitySnapshot, z: EntitySnapshot| #[trigger]
            r(x, y) && #[trigger] r(y, z) implies r(x, z) by {
            assert(snapshot_le(x, y) && snapshot_le(y, z));
            assert(snapshot_le(x, z));
        }
    }
    assert(vstd::relations::strongly_connected(r)) by {
        assert forall|x: EntitySnapshot, y: EntitySnapshot| #[trigger]
            r(x, y) || #[trigger] r(y, x) by {
            assert(snapshot_le(x, y) || snapshot_le(y, x));
        }
    }
}

impl Vec3 {
    /// Whether `self` comes strictly before `other`.
    pub fn precedes(&self, other: &Vec3) -> (b: bool)
        ensures
            b == vec3_before(*self, *other),
    {
        self.x < other.x || (self.x == other.x && (self.y < other.y || (self.y == other.y
            && self.z < other.z)))
    }
}

impl EntitySnapshot {
    /// Whether `self` comes strictly before `other` in the digest order.
    pub fn precedes(&self, other: &EntitySnapshot) -> (b: bool)
        ensures
            b == snapshot_before(*self, *other),
    {
        if self.id != other.id {
            self.id < other.id
        } else if self.pos != other.pos {
            self.pos.precedes(&other.pos)
        } else if self.vel != other.vel {
            self.vel.precedes(&other.vel)
        } else {
            self.size.precedes(&other.size)
        }
    }
}

} // verus!
