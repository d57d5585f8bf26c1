use crate::units::{trunc_div, trunc_div_exec, UNIT};
use vstd::prelude::*;

verus! {

/// One node of the cloth: a fixed planar position and a height that the
/// simulation moves until the node is pinned to its ceiling.
#[derive(Clone, Copy, Debug, PartialEq, Eq, Structural)]
pub struct Particle {
    pub x: i64,
    pub y: i64,
    /// Current height.
    pub z: i64,
    /// Ceiling: the elevation of the source point nearest to the node.
    pub max_z: i64,
    /// Height at the end of the previous sweep.
    pub prev_z: i64,
    /// False once the node has been pinned to its ceiling; never true again.
    pub is_moveable: bool,
    /// Squared planar distance to the source point that set the ceiling.
    pub closest_pt_distance: u128,
}

impl Particle {
    /// The node that a fresh grid holds in every cell.
    pub open spec fn blank() -> Particle {
        Particle {
            x: 0,
            y: 0,
            z: 0,
            max_z: 0,
            prev_z: 0,
            is_moveable: true,
            closest_pt_distance: u128::MAX,
        }
    }

    /// How far the internal force moves each of two neighbours toward the
    /// other: half their height difference, scaled by the rigidness (in per
    /// mille) and rounded toward zero. Positive when `self` is the higher one.
    pub open spec fn shift(self, other: Particle, rigidness: int) -> int {
        trunc_div((self.z - other.z) * rigidness, 2 * UNIT)
    }

    /// This node after the internal force between it and `other` has acted.
    pub open spec fn eased(self, other: Particle, rigidness: int) -> Particle {
        if self.is_moveable {
            Particle { z: (self.z - self.shift(other, rigidness)) as i64, ..self }
        } else {
            self
        }
    }

    /// The node `other` after the internal force between this node and it
    /// has acted.
    pub open spec fn easing(self, other: Particle, rigidness: int) -> Particle {
        if other.is_moveable {
            Particle { z: (other.z + self.shift(other, rigidness)) as i64, ..other }
        } else {
            other
        }
    }

    /// This node and its neighbours after the internal force has acted
    /// between the node and each neighbour in turn.
    pub open spec fn relaxed(self, neighbours: Seq<Particle>, rigidness: int) -> (
        Particle,
        Seq<Particle>,
    )
        decreases neighbours.len(),
    {
        if neighbours.len() == 0 {
            (self, neighbours)
        } else {
            let (node, done) = self.relaxed(neighbours.drop_last(), rigidness);
            (
                node.eased(neighbours.last(), rigidness),
                done.push(node.easing(neighbours.last(), rigidness)),
            )
        }
    }

    /// This node after the external force: a moveable node rises by
    /// `displacement`.
    pub open spec fn lifted(self, displacement: int) -> int {
        if self.is_moveable {
            self.z + displacement
        } else {
            self.z as int
        }
    }

    /// This node after the external force and the ceiling: a node that would
    /// pass its ceiling is set onto it and pinned.
    pub open spec fn settled(self, displacement: int) -> Particle {
        if self.lifted(displacement) > self.max_z {
            Particle { z: self.max_z, is_moveable: false, ..self }
        } else {
            Particle { z: self.lifted(displacement) as i64, ..self }
        }
    }

    /// This node and its neighbours after one application of all forces.
    pub open spec fn forced(
        self,
        neighbours: Seq<Particle>,
        rigidness: int,
        displacement: int,
    ) -> (Particle, Seq<Particle>) {
        let (node, others) = self.relaxed(neighbours, rigidness);
        (node.settled(displacement), others)
    }

    /// Whether `later` can be this node at a later time of a simulation: the
    /// position, the ceiling and the record of the nearest point are the same,
    /// a pinned node is still pinned, a node pinned at or below its ceiling
    /// is still at the same height, and a node that is pinned at the later
    /// time sits on its ceiling unless it was pinned elsewhere before and has
    /// not moved.
    pub open spec fn evolves_to(self, later: Particle) -> bool {
        &&& later.x == self.x
        &&& later.y == self.y
        &&& later.max_z == self.max_z
        &&& later.closest_pt_distance == self.closest_pt_distance
        &&& !self.is_moveable ==> !later.is_moveable
        &&& !self.is_moveable && self.z <= self.max_z ==> later.z == self.z
        &&& !later.is_moveable ==> later.z == later.max_z || (!self.is_moveable && later.z
            == self.z)
    }

    /// A moveable node at height `z` under the ceiling `max_z`.
    pub fn new(x: i64, y: i64, z: i64, max_z: i64) -> (p: Particle)
        ensures
            p == (Particle { x, y, z, max_z, prev_z: z, ..Particle::blank() }),
    {
        Particle {
            x,
            y,
            z,
            prev_z: z,
            max_z,
            is_moveable: true,
            closest_pt_distance: u128::MAX,
        }
    }

    /// Height of this node above `other`.
    pub fn z_difference(&self, other: &Particle) -> (d: i128)
        ensures
            d == self.z - other.z,
    {
        self.z as i128 - other.z as i128
    }

    /// The internal force never moves a node past its neighbour.
    pub proof fn lemma_shift_bounded(self, other: Particle, rigidness: int)
        requires
            0 <= rigidness <= UNIT,
        ensures
            self.z >= other.z ==> 0 <= self.shift(other, rigidness) <= self.z - other.z,
            self.z <= other.z ==> self.z - other.z <= self.shift(other, rigidness) <= 0,
    {
        let d: int = self.z - other.z;
        if d >= 0 {
            assert(0 <= d * rigidness <= d * 2000) by (nonlinear_arith)
                requires
                    d >= 0,
                    0 <= rigidness <= 1000,
            ;
            vstd::arithmetic::div_mod::lemma_div_is_ordered(d * rigidness, d * 2000, 2000);
            vstd::arithmetic::div_mod::lemma_div_by_multiple(d, 2000);
            vstd::arithmetic::div_mod::lemma_div_pos_is_pos(d * rigidness, 2000);
        } else {
            let e: int = -d;
            assert(-(d * rigidness) == e * rigidness) by (nonlinear_arith)
                requires
                    e == -d,
            ;
            assert(0 <= e * rigidness <= e * 2000) by (nonlinear_arith)
                requires
                    e >= 0,
                    0 <= rigidness <= 1000,
            ;
            vstd::arithmetic::div_mod::lemma_div_is_ordered(e * rigidness, e * 2000, 2000);
            vstd::arithmetic::div_mod::lemma_div_by_multiple(e, 2000);
            vstd::arithmetic::div_mod::lemma_div_pos_is_pos(e * rigidness, 2000);
            if d * rigidness >= 0 {
                assert(e * rigidness == 0);
            }
        }
    }

    /// The internal force changes neither position nor ceiling of the node
    /// or of any neighbour, and moves no pinned node.
    pub proof fn lemma_relaxed_evolves(self, neighbours: Seq<Particle>, rigidness: int)
        ensures
            self.evolves_to(self.relaxed(neighbours, rigidness).0),
            self.relaxed(neighbours, rigidness).0.is_moveable == self.is_moveable,
            self.relaxed(neighbours, rigidness).1.len() == neighbours.len(),
            forall|k: int|
                0 <= k < neighbours.len() ==> (#[trigger] neighbours[k]).evolves_to(
                    self.relaxed(neighbours, rigidness).1[k],
                ),
        decreases neighbours.len(),
    {
        if neighbours.len() > 0 {
            self.lemma_relaxed_evolves(neighbours.drop_last(), rigidness);
            let (node, done) = self.relaxed(neighbours.drop_last(), rigidness);
            assert forall|k: int| 0 <= k < neighbours.len() implies (
            #[trigger] neighbours[k]).evolves_to(self.relaxed(neighbours, rigidness).1[k]) by {
                if k < neighbours.len() - 1 {
                    assert(neighbours.drop_last()[k] == neighbours[k]);
                }
            }
        }
    }

    /// All forces together change neither position nor ceiling of the node
    /// or of any neighbour, never free a pinned node, and move no node that
    /// is pinned at or below its ceiling.
    pub proof fn lemma_forced_evolves(
        self,
        neighbours: Seq<Particle>,
        rigidness: int,
        displacement: int,
    )
        requires
            displacement >= 0,
        ensures
            self.evolves_to(self.forced(neighbours, rigidness, displacement).0),
            self.forced(neighbours, rigidness, displacement).1.len() == neighbours.len(),
            forall|k: int|
                0 <= k < neighbours.len() ==> (#[trigger] neighbours[k]).evolves_to(
                    self.forced(neighbours, rigidness, displacement).1[k],
                ),
    {
        self.lemma_relaxed_evolves(neighbours, rigidness);
    }

    /// Whether the node's height and ceiling lie between `low` and `high`,
    /// and the node, if pinned, sits on its ceiling.
    pub open spec fn within(self, low: int, high: int) -> bool {
        &&& low <= self.z <= high
        &&& low <= self.max_z <= high
        &&& !self.is_moveable ==> self.z == self.max_z
    }

    /// The internal force keeps a node and its neighbours between the bounds
    /// that held them before.
    pub proof fn lemma_relaxed_within(
        self,
        neighbours: Seq<Particle>,
        rigidness: int,
        low: int,
        high: int,
    )
        requires
            0 <= rigidness <= UNIT,
            self.within(low, high),
            forall|k: int| 0 <= k < neighbours.len() ==> (#[trigger] neighbours[k]).within(low, high),
        ensures
            self.relaxed(neighbours, rigidness).0.within(low, high),
            self.relaxed(neighbours, rigidness).1.len() == neighbours.len(),
            forall|k: int|
                0 <= k < neighbours.len() ==> (#[trigger] self.relaxed(
                    neighbours,
                    rigidness,
                ).1[k]).within(low, high),
        decreases neighbours.len(),
    {
        if neighbours.len() > 0 {
            assert forall|k: int| 0 <= k < neighbours.drop_last().len() implies (
            #[trigger] neighbours.drop_last()[k]).within(low, high) by {
                assert(neighbours.drop_last()[k] == neighbours[k]);
            }
            self.lemma_relaxed_within(neighbours.drop_last(), rigidness, low, high);
            let (node, done) = self.relaxed(neighbours.drop_last(), rigidness);
            let last = neighbours.last();
            assert(last == neighbours[neighbours.len() - 1]);
            assert(last.within(low, high));
            node.lemma_shift_bounded(last, rigidness);
            assert forall|k: int| 0 <= k < neighbours.len() implies (#[trigger] self.relaxed(
                neighbours,
                rigidness,
            ).1[k]).within(low, high) by {
                if k < neighbours.len() - 1 {
                    assert(self.relaxed(neighbours, rigidness).1[k] == done[k]);
                }
            }
        }
    }

    /// All forces together keep a node and its neighbours between the bounds
    /// that held them before: no node rises above the highest ceiling or
    /// sinks below the lowest height, and a node that gets pinned sits on its
    /// ceiling.
    pub proof fn lemma_forced_within(
        self,
        neighbours: Seq<Particle>,
        rigidness: int,
        displacement: int,
        low: int,
        high: int,
    )
        requires
            0 <= rigidness <= UNIT,
            displacement >= 0,
            self.within(low, high),
            forall|k: int| 0 <= k < neighbours.len() ==> (#[trigger] neighbours[k]).within(low, high),
        ensures
            self.forced(neighbours, rigidness, displacement).0.within(low, high),
            forall|k: int|
                0 <= k < neighbours.len() ==> (#[trigger] self.forced(
                    neighbours,
                    rigidness,
                    displacement,
                ).1[k]).within(low, high),
    {
        self.lemma_relaxed_within(neighbours, rigidness, low, high);
    }

    /// The internal force moves a node at most half the way, rounded down,
    /// toward its neighbour.
    pub proof fn lemma_shift_halved(self, other: Particle, rigidness: int)
        requires
            0 <= rigidness <= UNIT,
        ensures
            self.z >= other.z ==> 0 <= 2 * self.shift(other, rigidness) <= self.z - other.z,
            self.z <= other.z ==> self.z - other.z <= 2 * self.shift(other, rigidness) <= 0,
    {
        self.lemma_shift_bounded(other, rigidness);
        let d: int = self.z - other.z;
        let e: int = if d >= 0 {
            d
        } else {
            -d
        };
        assert(0 <= e * rigidness <= e * 1000) by (nonlinear_arith)
            requires
                e >= 0,
                0 <= rigidness <= 1000,
        ;
        vstd::arithmetic::div_mod::lemma_div_is_ordered(e * rigidness, e * 1000, 2000);
        vstd::arithmetic::div_mod::lemma_fundamental_div_mod(e, 2);
        vstd::arithmetic::div_mod::lemma_mod_bound(e, 2);
        let q = e / 2;
        let rest = e % 2;
        assert(e * 1000 == q * 2000 + 1000 * rest) by (nonlinear_arith)
            requires
                e == 2 * q + rest,
        ;
        vstd::arithmetic::div_mod::lemma_fundamental_div_mod_converse(
            e * 1000,
            2000,
            q,
            1000 * rest,
        );
        if d < 0 {
            assert(-(d * rigidness) == e * rigidness) by (nonlinear_arith)
                requires
                    e == -d,
            ;
            if d * rigidness >= 0 {
                assert(e * rigidness == 0);
            }
        }
    }

    /// Whether the node is part of a cloth under a flat ceiling at `level`
    /// that nowhere lies below `floor`: its ceiling is `level`, its height
    /// lies between `floor` and `level`, and it sits on the ceiling if it is
    /// pinned.
    pub open spec fn under_flat(self, floor: int, level: int) -> bool {
        &&& self.max_z == level
        &&& self.within(floor, level)
    }

    /// Under a flat ceiling the internal force leaves every node at or above
    /// the floor, leaves above the floor whichever node was above it, and
    /// changes neither a node's freedom to move nor its recorded height.
    pub proof fn lemma_relaxed_under_flat(
        self,
        neighbours: Seq<Particle>,
        rigidness: int,
        floor: int,
        level: int,
    )
        requires
            0 <= rigidness <= UNIT,
            self.under_flat(floor, level),
            forall|k: int|
                0 <= k < neighbours.len() ==> (#[trigger] neighbours[k]).under_flat(floor, level),
        ensures
            ({
                let (node, others) = self.relaxed(neighbours, rigidness);
                &&& others.len() == neighbours.len()
                &&& node.under_flat(floor, level)
                &&& node.is_moveable == self.is_moveable
                &&& node.prev_z == self.prev_z
                &&& self.z > floor ==> node.z > floor
                &&& forall|k: int|
                    0 <= k < neighbours.len() ==> {
                        &&& (#[trigger] others[k]).under_flat(floor, level)
                        &&& others[k].is_moveable == neighbours[k].is_moveable
                        &&& others[k].prev_z == neighbours[k].prev_z
                        &&& neighbours[k].z > floor ==> others[k].z > floor
                    }
            }),
        decreases neighbours.len(),
    {
        if neighbours.len() > 0 {
            let front = neighbours.drop_last();
            assert forall|k: int| 0 <= k < front.len() implies (#[trigger] front[k]).under_flat(
                floor,
                level,
            ) by {
                assert(front[k] == neighbours[k]);
            }
            self.lemma_relaxed_under_flat(front, rigidness, floor, level);
            let (node, done) = self.relaxed(front, rigidness);
            let last = neighbours.last();
            assert(last == neighbours[neighbours.len() - 1]);
            assert(last.under_flat(floor, level));
            node.lemma_shift_halved(last, rigidness);
            let (after, others) = self.relaxed(neighbours, rigidness);
            assert(after == node.eased(last, rigidness));
            assert(others == done.push(node.easing(last, rigidness)));
            assert forall|k: int| 0 <= k < neighbours.len() implies {
                &&& (#[trigger] others[k]).under_flat(floor, level)
                &&& others[k].is_moveable == neighbours[k].is_moveable
                &&& others[k].prev_z == neighbours[k].prev_z
                &&& neighbours[k].z > floor ==> others[k].z > floor
            } by {
                if k < neighbours.len() - 1 {
                    assert(others[k] == done[k]);
                    assert(front[k] == neighbours[k]);
                }
            }
        }
    }

    /// Under a flat ceiling all forces together leave every node at or above
    /// the floor and whichever node was above the floor above it; a node
    /// below the ceiling that can move ends above the floor; no neighbour's
    /// freedom to move changes, and no recorded height.
    pub proof fn lemma_forced_under_flat(
        self,
        neighbours: Seq<Particle>,
        rigidness: int,
        displacement: int,
        floor: int,
        level: int,
    )
        requires
            0 <= rigidness <= UNIT,
            displacement >= 1,
            floor < level,
            self.under_flat(floor, level),
            forall|k: int|
                0 <= k < neighbours.len() ==> (#[trigger] neighbours[k]).under_flat(floor, level),
        ensures
            ({
                let (node, others) = self.forced(neighbours, rigidness, displacement);
                &&& others.len() == neighbours.len()
                &&& node.under_flat(floor, level)
                &&& node.prev_z == self.prev_z
                &&& node.z > floor
                &&& forall|k: int|
                    0 <= k < neighbours.len() ==> {
                        &&& (#[trigger] others[k]).under_flat(floor, level)
                        &&& others[k].is_moveable == neighbours[k].is_moveable
                        &&& others[k].prev_z == neighbours[k].prev_z
                        &&& neighbours[k].z > floor ==> others[k].z > floor
                    }
            }),
    {
        self.lemma_relaxed_under_flat(neighbours, rigidness, floor, level);
    }

    /// Whether the node is pinned on the ceiling at `level` or stands at
    /// least `height` above `floor`.
    pub open spec fn raised(self, floor: int, level: int, height: int) -> bool {
        (!self.is_moveable && self.z == level) || self.z >= floor + height
    }

    /// Under a flat ceiling the forces applied at a node leave that node
    /// pinned on the ceiling or at least the displacement above the floor,
    /// and leave a neighbour that was pinned or `height` above the floor
    /// pinned or at least half of `height`, rounded up, above the floor.
    pub proof fn lemma_forced_raised(
        self,
        neighbours: Seq<Particle>,
        rigidness: int,
        displacement: int,
        floor: int,
        level: int,
        height: int,
    )
        requires
            0 <= rigidness <= UNIT,
            displacement >= 1,
            floor < level,
            height >= 0,
            self.under_flat(floor, level),
            forall|k: int|
                0 <= k < neighbours.len() ==> (#[trigger] neighbours[k]).under_flat(floor, level),
        ensures
            self.forced(neighbours, rigidness, displacement).0.raised(floor, level, displacement),
            forall|k: int|
                0 <= k < neighbours.len() && (#[trigger] neighbours[k]).raised(floor, level, height)
                    ==> self.forced(neighbours, rigidness, displacement).1[k].raised(
                    floor,
                    level,
                    (height + 1) / 2,
                ),
    {
        self.lemma_relaxed_under_flat(neighbours, rigidness, floor, level);
        self.lemma_relaxed_raised(neighbours, rigidness, floor, level, height);
    }

    /// Under a flat ceiling the internal force leaves a neighbour that was
    /// pinned or `height` above the floor pinned or at least half of
    /// `height`, rounded up, above the floor.
    pub proof fn lemma_relaxed_raised(
        self,
        neighbours: Seq<Particle>,
        rigidness: int,
        floor: int,
        level: int,
        height: int,
    )
        requires
            0 <= rigidness <= UNIT,
            height >= 0,
            self.under_flat(floor, level),
            forall|k: int|
                0 <= k < neighbours.len() ==> (#[trigger] neighbours[k]).under_flat(floor, level),
        ensures
            self.relaxed(neighbours, rigidness).1.len() == neighbours.len(),
            forall|k: int|
                0 <= k < neighbours.len() && (#[trigger] neighbours[k]).raised(floor, level, height)
                    ==> self.relaxed(neighbours, rigidness).1[k].raised(
                    floor,
                    level,
                    (height + 1) / 2,
                ),
        decreases neighbours.len(),
    {
        if neighbours.len() > 0 {
            let front = neighbours.drop_last();
            assert forall|k: int| 0 <= k < front.len() implies (#[trigger] front[k]).under_flat(
                floor,
                level,
            ) by {
                assert(front[k] == neighbours[k]);
            }
            self.lemma_relaxed_raised(front, rigidness, floor, level, height);
            self.lemma_relaxed_under_flat(front, rigidness, floor, level);
            let (node, done) = self.relaxed(front, rigidness);
            let last = neighbours.last();
            assert(last == neighbours[neighbours.len() - 1]);
            assert(last.under_flat(floor, level));
            node.lemma_shift_halved(last, rigidness);
            let others = self.relaxed(neighbours, rigidness).1;
            assert(others == done.push(node.easing(last, rigidness)));
            assert forall|k: int|
                0 <= k < neighbours.len() && (#[trigger] neighbours[k]).raised(
                    floor,
                    level,
                    height,
                ) implies others[k].raised(floor, level, (height + 1) / 2) by {
                if k < neighbours.len() - 1 {
                    assert(others[k] == done[k]);
                    assert(front[k] == neighbours[k]);
                } else {
                    let after = node.easing(last, rigidness);
                    assert(others[k] == after);
                    if last.is_moveable {
                        let shift = node.shift(last, rigidness);
                        assert(after.z == last.z + shift);
                        assert(2 * after.z >= 2 * floor + height);
                    }
                }
            }
        }
    }

    /// Lets the internal force act between this node and `other`.
    fn exchange(&mut self, other: &mut Particle, rigidness: i64)
        requires
            0 <= rigidness <= UNIT,
        ensures
            *final(self) == old(self).eased(*old(other), rigidness as int),
            *final(other) == old(self).easing(*old(other), rigidness as int),
    {
        let diff: i128 = self.z_difference(other);
        assert(-0x1_0000_0000_0000_0000 * 1000 <= diff * rigidness <= 0x1_0000_0000_0000_0000 * 1000)
            by (nonlinear_arith)
            requires
                -0x1_0000_0000_0000_0000 < diff < 0x1_0000_0000_0000_0000,
                0 <= rigidness <= 1000,
        ;
        let shift: i128 = trunc_div_exec(diff * rigidness as i128, 2000);
        proof {
            self.lemma_shift_bounded(*other, rigidness as int);
        }
        if other.is_moveable {
            other.z = (other.z as i128 + shift) as i64;
        }
        if self.is_moveable {
            self.z = (self.z as i128 - shift) as i64;
        }
    }

    /// Lets the internal force act between this node and each neighbour in
    /// turn.
    fn apply_internal_force(&mut self, rigidness: i64, neighbours: &mut Vec<Particle>)
        requires
            0 <= rigidness <= UNIT,
        ensures
            (*final(self), final(neighbours)@) == old(self).relaxed(
                old(neighbours)@,
                rigidness as int,
            ),
    {
        let ghost start = *self;
        let ghost given = neighbours@;
        let n = neighbours.len();
        let mut k: usize = 0;
        while k < n
            invariant
                0 <= rigidness <= UNIT,
                k <= n,
                n == given.len(),
                neighbours@.len() == n,
                (*self, neighbours@.take(k as int)) == start.relaxed(
                    given.take(k as int),
                    rigidness as int,
                ),
                forall|m: int| k <= m < n ==> neighbours@[m] == given[m],
            decreases n - k,
        {
            let ghost done = neighbours@.take(k as int);
            let mut other = neighbours[k];
            self.exchange(&mut other, rigidness);
            neighbours.set(k, other);
            proof {
                assert(given.take(k + 1).drop_last() =~= given.take(k as int));
                assert(given.take(k + 1).last() == given[k as int]);
                assert(neighbours@.take(k + 1) =~= done.push(other));
            }
            k += 1;
        }
        proof {
            assert(neighbours@.take(n as int) =~= neighbours@);
            assert(given.take(n as int) =~= given);
        }
    }

    /// Lets the external force and the ceiling act on this node.
    fn apply_external_force(&mut self, displacement: i64)
        requires
            displacement >= 0,
        ensures
            *final(self) == old(self).settled(displacement as int),
    {
        let lifted: i128 = if self.is_moveable {
            self.z as i128 + displacement as i128
        } else {
            self.z as i128
        };
        if lifted > self.max_z as i128 {
            self.z = self.max_z;
            self.is_moveable = false;
        } else {
            self.z = lifted as i64;
        }
    }

    /// Applies one step of the simulation to this node: the internal force
    /// against each neighbour in turn, which also moves the neighbours, then
    /// the external force, then the ceiling.
    pub fn apply_force(&mut self, rigidness: i64, neighbours: &mut Vec<Particle>, displacement: i64)
        requires
            0 <= rigidness <= UNIT,
            displacement >= 0,
        ensures
            (*final(self), final(neighbours)@) == old(self).forced(
                old(neighbours)@,
                rigidness as int,
                displacement as int,
            ),
    {
        self.apply_internal_force(rigidness, neighbours);
        self.apply_external_force(displacement);
    }
}

impl Default for Particle {
    fn default() -> (p: Particle)
        ensures
            p == Particle::blank(),
    {
        Particle {
            x: 0,
            y: 0,
            z: 0,
            prev_z: 0,
            max_z: 0,
            is_moveable: true,
            closest_pt_distance: u128::MAX,
        }
    }
}

} // verus!
