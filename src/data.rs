use crate::player::AbilityTarget;
use vstd::prelude::*;

verus! {

/// What a cell or an entity looks like.
#[derive(Clone, Copy, PartialEq, Eq, Debug, Structural)]
pub enum Tile {
    Player,
    Wall,
    Floor,
    DoorClosed,
    DoorOpen,
    Stairs,
    Sludge0,
    Sludge1,
    Bridge,
    SlimeDivide,
    SlimeTeleport,
    SlimeSwap,
    SlimeGoo,
    SlimeCurse,
    SlimeAttackUpgrade,
    SlimeDefendUpgrade,
    SlimeTechUpgrade,
    SlimeBoss,
    AttackItem { special: bool },
    DefendItem { special: bool },
    TechItem { special: bool },
}

#[derive(Clone, Copy, PartialEq, Eq, Debug, Structural)]
pub enum Item {
    Attack { special: bool },
    Defend { special: bool },
    Tech { special: bool },
}

#[derive(Clone, Copy, PartialEq, Eq, Debug, Structural)]
pub enum Disposition {
    Hostile,
    Afraid,
}

#[derive(Clone, Copy, PartialEq, Eq, Debug, Structural)]
pub struct Npc {
    pub disposition: Disposition,
}

/// What a moving entity stops at.
#[derive(Clone, Copy, PartialEq, Eq, Debug, Structural)]
pub struct CollidesWith {
    pub solid: bool,
    pub character: bool,
}

impl Default for CollidesWith {
    /// Solid obstacles stop it; characters do not.
    fn default() -> (r: Self)
        ensures
            r == (CollidesWith { solid: true, character: false }),
    {
        CollidesWith { solid: true, character: false }
    }
}

#[derive(Clone, Copy, PartialEq, Eq, Debug, Structural)]
pub struct ProjectileDamage {
    pub hit_points: u32,
    pub push_back: bool,
}

#[derive(Clone, Copy, PartialEq, Eq, Debug, Structural)]
pub struct HitPoints {
    pub current: u32,
    pub max: u32,
}

impl HitPoints {
    /// Full health out of `max`.
    pub fn new_full(max: u32) -> (r: Self)
        ensures
            r.current == max,
            r.max == max,
    {
        HitPoints { current: max, max }
    }
}

#[derive(Clone, Copy, PartialEq, Eq, Debug, Structural)]
pub enum DoorState {
    Open,
    Closed,
}

/// What happens to an entity when it takes damage.
#[derive(Clone, Copy, PartialEq, Eq, Debug, Structural)]
pub enum OnDamage {
    Sludge,
    Divide,
    DivideAndSpawn,
    Teleport,
    Swap,
    Upgrade { level: u32, ability_target: AbilityTarget },
    Curse,
}

#[derive(Clone, Copy, PartialEq, Eq, Debug, Default, Structural)]
pub struct MoveHalfSpeed {
    pub skip_next_move: bool,
}

#[derive(Clone, Copy, PartialEq, Eq, Debug, Structural)]
pub enum DropItemOnDeath {
    GuaranteeSpecial,
    RandomNormal,
}

} // verus!
