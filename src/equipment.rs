use vstd::prelude::*;

use crate::components::{Damage, Equipment, EquipmentSlot, Health, Inventory, Item, Melee};
use crate::actions::sat_add;
use crate::world::{Entity, EntityRecord, World};

verus! {

impl Item {
    /// The slot an item is worn in; items that cannot be worn have none.
    pub open spec fn slot_spec(&self) -> Option<EquipmentSlot> {
        match *self {
            Item::Sword(_) => Some(EquipmentSlot::Weapon),
            Item::ChestArmor(_) => Some(EquipmentSlot::Chest),
            _ => None,
        }
    }

    pub open spec fn id_spec(&self) -> u32 {
        match *self {
            Item::Sword(s) => s.id,
            Item::ChestArmor(c) => c.id,
            _ => 0,
        }
    }

    pub open spec fn damage_spec(&self) -> Option<Damage> {
        match *self {
            Item::Sword(_) => Some(Damage { min: 5, max: 10 }),
            _ => None,
        }
    }

    pub open spec fn health_spec(&self) -> Option<u32> {
        match *self {
            Item::ChestArmor(_) => Some(10),
            _ => None,
        }
    }

    pub open spec fn defense_spec(&self) -> Option<u32> {
        match *self {
            Item::ChestArmor(_) => Some(5),
            _ => None,
        }
    }

    pub fn slot(&self) -> (r: Option<EquipmentSlot>)
        ensures
            r == self.slot_spec(),
    {
        match self {
            Item::Sword(_) => Some(EquipmentSlot::Weapon),
            Item::ChestArmor(_) => Some(EquipmentSlot::Chest),
            _ => None,
        }
    }

    pub fn id(&self) -> (r: u32)
        ensures
            r == self.id_spec(),
    {
        match self {
            Item::Sword(s) => s.id,
            Item::ChestArmor(c) => c.id,
            _ => 0,
        }
    }

    pub fn damage(&self) -> (r: Option<Damage>)
        ensures
            r == self.damage_spec(),
    {
        match self {
            Item::Sword(_) => Some(Damage { min: 5, max: 10 }),
            _ => None,
        }
    }

    pub fn health(&self) -> (r: Option<u32>)
        ensures
            r == self.health_spec(),
    {
        match self {
            Item::ChestArmor(_) => Some(10),
            _ => None,
        }
    }

    pub fn defense(&self) -> (r: Option<u32>)
        ensures
            r == self.defense_spec(),
    {
        match self {
            Item::ChestArmor(_) => Some(5),
            _ => None,
        }
    }
}

/// The equipment with `item` worn in `slot`, if it can be worn at all.
pub open spec fn equipped(e: Equipment, item: Item, slot: EquipmentSlot) -> Equipment {
    if item.slot_spec().is_some() {
        match slot {
            EquipmentSlot::Weapon => Equipment { weapon: Some(item), ..e },
            EquipmentSlot::Chest => Equipment { chest: Some(item), ..e },
        }
    } else {
        e
    }
}

pub fn equip_item(equipment: &mut Equipment, item: Item, slot: EquipmentSlot)
    ensures
        *final(equipment) == equipped(*old(equipment), item, slot),
{
    if item.slot().is_some() {
        match slot {
            EquipmentSlot::Weapon => {
                equipment.weapon = Some(item);
            },
            EquipmentSlot::Chest => {
                equipment.chest = Some(item);
            },
        }
    }
}

pub fn unequip_and_return_item(equipment: &mut Equipment, slot: EquipmentSlot) -> (r: Option<Item>)
    ensures
        r == match slot {
            EquipmentSlot::Weapon => old(equipment).weapon,
            EquipmentSlot::Chest => old(equipment).chest,
        },
        *final(equipment) == match slot {
            EquipmentSlot::Weapon => Equipment { weapon: None, ..*old(equipment) },
            EquipmentSlot::Chest => Equipment { chest: None, ..*old(equipment) },
        },
{
    match slot {
        EquipmentSlot::Weapon => equipment.weapon.take(),
        EquipmentSlot::Chest => equipment.chest.take(),
    }
}

/// The item is the one asked for: its id, and worn in the slot asked for.
pub open spec fn wanted(item: Item, id: u32, slot: EquipmentSlot) -> bool {
    item.id_spec() == id && item.slot_spec() == Some(slot)
}

/// The items of `s` that are not wanted, in order.
pub open spec fn kept(s: Seq<Item>, id: u32, slot: EquipmentSlot) -> Seq<Item>
    decreases s.len(),
{
    if s.len() == 0 {
        seq![]
    } else if wanted(s.last(), id, slot) {
        kept(s.drop_last(), id, slot)
    } else {
        kept(s.drop_last(), id, slot).push(s.last())
    }
}

/// The last wanted item of `s`, if any.
pub open spec fn last_wanted(s: Seq<Item>, id: u32, slot: EquipmentSlot) -> Option<Item>
    decreases s.len(),
{
    if s.len() == 0 {
        None
    } else if wanted(s.last(), id, slot) {
        Some(s.last())
    } else {
        last_wanted(s.drop_last(), id, slot)
    }
}

/// The effect of wearing the item with the given id in `slot`.
pub open spec fn equip_event_post(pre: World, post: World, entity: Entity, slot: EquipmentSlot, id: u32) -> bool {
    if pre.alive(entity) && pre.rec(entity).equipment.is_some() && pre.rec(entity).inventory.is_some() {
        let items = pre.rec(entity).inventory.unwrap().items@;
        let eq = pre.rec(entity).equipment.unwrap();
        &&& post.alive(entity)
        &&& post.entities@ == pre.entities@.update(entity.0 as int, Some(post.rec(entity)))
        &&& post.rec(entity) == EntityRecord {
            inventory: post.rec(entity).inventory,
            equipment: Some(
                match last_wanted(items, id, slot) {
                    Some(item) => equipped(eq, item, slot),
                    None => eq,
                },
            ),
            ..pre.rec(entity)
        }
        &&& post.rec(entity).inventory.is_some()
        &&& post.rec(entity).inventory.unwrap().items@ == kept(items, id, slot)
        &&& post.board == pre.board
        &&& post.events@ == pre.events@
    } else {
        post == pre
    }
}

/// Moves the item with the given id out of the entity's inventory and
/// wears it in `slot`; every matching item leaves the inventory and the
/// last one is worn. An entity without equipment or inventory is untouched.
pub fn equip_event_system(world: &mut World, entity: Entity, slot: EquipmentSlot, id: u32)
    ensures
        equip_event_post(*old(world), *final(world), entity, slot, id),
{
    if !world.is_alive(entity) {
        return;
    }
    let ready = match &world.entities[entity.0] {
        Some(rec) => rec.equipment.is_some() && rec.inventory.is_some(),
        None => false,
    };
    if !ready {
        return;
    }
    let ghost pre = *world;
    let mut rec = world.take_record(entity);
    let inv = rec.inventory.take().unwrap();
    let items = inv.items;
    let ghost all = items@;
    let mut rest: Vec<Item> = Vec::new();
    let mut chosen: Option<Item> = None;
    let mut i: usize = 0;
    while i < items.len()
        invariant
            i <= items@.len(),
            all == items@,
            rest@ == kept(all.subrange(0, i as int), id, slot),
            chosen == last_wanted(all.subrange(0, i as int), id, slot),
        decreases items@.len() - i,
    {
        let item = items[i];
        assert(all.subrange(0, i + 1).drop_last() =~= all.subrange(0, i as int));
        if item.id() == id && item.slot() == Some(slot) {
            chosen = Some(item);
        } else {
            rest.push(item);
        }
        i = i + 1;
    }
    assert(all.subrange(0, all.len() as int) =~= all);
    let mut eq = rec.equipment.unwrap();
    match chosen {
        Some(item) => equip_item(&mut eq, item, slot),
        None => {},
    }
    rec.equipment = Some(eq);
    rec.inventory = Some(Inventory { items: rest });
    world.entities.set(entity.0, Some(rec));
    assert(world.entities@ =~= pre.entities@.update(entity.0 as int, Some(rec)));
}

/// Takes the item worn in `slot` off and puts it back into the inventory.
pub fn unequip_event_system(world: &mut World, entity: Entity, slot: EquipmentSlot)
    ensures
        ({
            let pre = *old(world);
            let post = *final(world);
            if pre.alive(entity) && pre.rec(entity).equipment.is_some() && pre.rec(entity).inventory.is_some() {
                let items = pre.rec(entity).inventory.unwrap().items@;
                let eq = pre.rec(entity).equipment.unwrap();
                let worn = match slot {
                    EquipmentSlot::Weapon => eq.weapon,
                    EquipmentSlot::Chest => eq.chest,
                };
                &&& post.alive(entity)
                &&& post.entities@ == pre.entities@.update(entity.0 as int, Some(post.rec(entity)))
                &&& post.rec(entity) == EntityRecord {
                    inventory: post.rec(entity).inventory,
                    equipment: Some(
                        match slot {
                            EquipmentSlot::Weapon => Equipment { weapon: None, ..eq },
                            EquipmentSlot::Chest => Equipment { chest: None, ..eq },
                        },
                    ),
                    ..pre.rec(entity)
                }
                &&& post.rec(entity).inventory.is_some()
                &&& post.rec(entity).inventory.unwrap().items@ == match worn {
                    Some(item) => items.push(item),
                    None => items,
                }
                &&& post.board == pre.board
                &&& post.events@ == pre.events@
            } else {
                post == pre
            }
        }),
{
    if !world.is_alive(entity) {
        return;
    }
    let ready = match &world.entities[entity.0] {
        Some(rec) => rec.equipment.is_some() && rec.inventory.is_some(),
        None => false,
    };
    if !ready {
        return;
    }
    let ghost pre = *world;
    let mut rec = world.take_record(entity);
    let mut inv = rec.inventory.take().unwrap();
    let mut eq = rec.equipment.unwrap();
    match unequip_and_return_item(&mut eq, slot) {
        Some(item) => inv.items.push(item),
        None => {},
    }
    rec.equipment = Some(eq);
    rec.inventory = Some(inv);
    world.entities.set(entity.0, Some(rec));
    assert(world.entities@ =~= pre.entities@.update(entity.0 as int, Some(rec)));
}

/// Health and melee figures recomputed from the base ones and what is worn:
/// a worn item's damage replaces the current damage, its health raises the
/// health ceiling.
pub open spec fn with_item_stats(h: Health, m: Melee, item: Option<Item>) -> (Health, Melee) {
    match item {
        Some(it) => {
            let m2 = match it.damage_spec() {
                Some(d) => Melee { current_damage: d, ..m },
                None => m,
            };
            let h2 = match it.health_spec() {
                Some(extra) => Health {
                    current: crate::components::Range {
                        max: sat_add(h.current.max, extra),
                        ..h.current
                    },
                    ..h
                },
                None => h,
            };
            (h2, m2)
        },
        None => (h, m),
    }
}

pub open spec fn stats_spec(h: Health, m: Melee, e: Equipment) -> (Health, Melee) {
    let base_h = Health { current: h.base, ..h };
    let base_m = Melee { current_damage: m.base_damage, ..m };
    let after_weapon = with_item_stats(base_h, base_m, e.weapon);
    with_item_stats(after_weapon.0, after_weapon.1, e.chest)
}

pub open spec fn restat(o: Option<EntityRecord>) -> Option<EntityRecord> {
    if o.is_some() && o.unwrap().health.is_some() && o.unwrap().melee.is_some() && o.unwrap().equipment.is_some() {
        let r = o.unwrap();
        let s = stats_spec(r.health.unwrap(), r.melee.unwrap(), r.equipment.unwrap());
        Some(EntityRecord { health: Some(s.0), melee: Some(s.1), ..r })
    } else {
        o
    }
}

fn apply_item(h: &mut Health, m: &mut Melee, item: Option<Item>)
    ensures
        (*final(h), *final(m)) == with_item_stats(*old(h), *old(m), item),
{
    match item {
        Some(it) => {
            match it.damage() {
                Some(d) => {
                    m.current_damage = d;
                },
                None => {},
            }
            match it.health() {
                Some(extra) => {
                    h.current.max = h.current.max.saturating_add(extra);
                },
                None => {},
            }
        },
        None => {},
    }
}

/// Recomputes health and melee figures of every entity that wears equipment.
pub fn update_stats(world: &mut World)
    ensures
        final(world).board == old(world).board,
        final(world).events@ == old(world).events@,
        final(world).entities@.len() == old(world).entities@.len(),
        forall|i: int|
            0 <= i < old(world).entities@.len() ==> #[trigger] final(world).entities@[i] == restat(
                old(world).entities@[i],
            ),
{
    let ghost pre = *world;
    let mut i: usize = 0;
    while i < world.entities.len()
        invariant
            world.entities@.len() == pre.entities@.len(),
            world.board == pre.board,
            world.events@ == pre.events@,
            i <= pre.entities@.len(),
            forall|j: int| 0 <= j < i ==> #[trigger] world.entities@[j] == restat(pre.entities@[j]),
            forall|j: int| i <= j < pre.entities@.len() ==> #[trigger] world.entities@[j] == pre.entities@[j],
        decreases pre.entities@.len() - i,
    {
        let ready = match &world.entities[i] {
            Some(rec) => rec.health.is_some() && rec.melee.is_some() && rec.equipment.is_some(),
            None => false,
        };
        if ready {
            let mut rec = world.take_record(Entity(i));
            let mut h = rec.health.unwrap();
            let mut m = rec.melee.unwrap();
            let eq = rec.equipment.unwrap();
            h.current = h.base;
            m.current_damage = m.base_damage;
            apply_item(&mut h, &mut m, eq.weapon);
            apply_item(&mut h, &mut m, eq.chest);
            rec.health = Some(h);
            rec.melee = Some(m);
            world.entities.set(i, Some(rec));
        }
        i = i + 1;
    }
}

} // verus!

verus! {

/// Asks the single player, if there is one, to wear the item with the given
/// id in `slot`.
pub fn player_equip_event_system(world: &mut World, slot: EquipmentSlot, id: u32)
    ensures
        ({
            let pre = *old(world);
            match crate::planning::single_player_index(pre) {
                Some(i) => equip_event_post(pre, *final(world), Entity(i as usize), slot, id),
                None => *final(world) == pre,
            }
        }),
{
    match crate::planning::player_index(world) {
        Some(i) => equip_event_system(world, Entity(i), slot, id),
        None => {},
    }
}

} // verus!
