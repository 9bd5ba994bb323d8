use vstd::prelude::*;

use crate::actions::Action;
use crate::vectors::Vector2Int;

verus! {

/// A value with a lower and an upper figure; for health, `min` is the current
/// amount and `max` the ceiling it can be restored to.
#[derive(Clone, Copy, Debug, PartialEq, Eq, Structural)]
pub struct Range {
    pub min: u32,
    pub max: u32,
}

#[derive(Clone, Copy, Debug, PartialEq, Eq, Structural)]
pub struct Damage {
    pub min: u32,
    pub max: u32,
}

#[derive(Clone, Copy, Debug, PartialEq, Eq, Structural)]
pub struct Health {
    pub base: Range,
    pub current: Range,
}

#[derive(Clone, Copy, Debug, PartialEq, Eq, Structural)]
pub struct Melee {
    pub base_damage: Damage,
    pub current_damage: Damage,
}

#[derive(Clone, Copy, Debug, PartialEq, Eq, Structural)]
pub struct Gold {
    pub value: u32,
}

#[derive(Clone, Copy, Debug, PartialEq, Eq, Structural)]
pub struct GoldDrop {
    pub value: u32,
}

#[derive(Clone, Copy, Debug, PartialEq, Eq, Structural)]
pub struct HealthDrop {
    pub value: u32,
}

#[derive(Clone, Copy, Debug, Default, PartialEq, Eq, Structural)]
pub struct Sword {
    pub equipped: bool,
    pub id: u32,
}

#[derive(Clone, Copy, Debug, Default, PartialEq, Eq, Structural)]
pub struct ChestArmor {
    pub equipped: bool,
    pub id: u32,
}

/// Everything that can lie on the board and be picked up.
#[derive(Clone, Copy, Debug, PartialEq, Eq, Structural)]
pub enum Item {
    Gold(GoldDrop),
    Health(HealthDrop),
    Sword(Sword),
    ChestArmor(ChestArmor),
}

#[derive(Clone, Copy, Debug, PartialEq, Eq, Structural)]
pub enum EquipmentSlot {
    Weapon,
    Chest,
}

#[derive(Clone, Copy, Debug, PartialEq, Eq, Structural)]
pub struct ItemContainer {
    pub item: Item,
}

#[derive(Clone, Copy, Debug, PartialEq, Eq, Structural)]
pub struct Projectile {
    pub destination: Vector2Int,
    pub damage: Damage,
}

#[derive(Clone, Copy, Debug, PartialEq, Eq, Structural)]
pub struct Tile {
    pub visible: bool,
    pub seen: bool,
}

/// Candidate actions of an entity for its coming turn, each with a score.
pub struct Actor(pub Vec<(Action, i32)>);

pub struct Inventory {
    pub items: Vec<Item>,
}

#[derive(Clone, Copy, Debug, PartialEq, Eq, Structural)]
pub struct Equipment {
    pub weapon: Option<Item>,
    pub chest: Option<Item>,
}

} // verus!
