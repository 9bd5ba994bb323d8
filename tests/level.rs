use roguelike_core::components::{ChestArmor, Damage, Equipment, EquipmentSlot, Health, Inventory, Item, Melee, Range, Sword};
use roguelike_core::equipment::{equip_event_system, equip_item, player_equip_event_system, unequip_and_return_item, unequip_event_system, update_stats};
use roguelike_core::level::{spawn_map, spawn_npcs, spawn_player, spawn_projectile, randomly_reposition_player};
use roguelike_core::planning::player_position;
use roguelike_core::vectors::Vector2Int;
use roguelike_core::world::{EntityRecord, World};

fn v(x: i32, y: i32) -> Vector2Int {
    Vector2Int::new(x, y)
}

fn wearer() -> EntityRecord {
    let mut r = EntityRecord::empty();
    r.position = Some(v(0, 0));
    r.health = Some(Health { base: Range { min: 10, max: 10 }, current: Range { min: 7, max: 10 } });
    r.melee = Some(Melee { base_damage: Damage { min: 1, max: 2 }, current_damage: Damage { min: 1, max: 2 } });
    r.equipment = Some(Equipment { weapon: None, chest: None });
    r.inventory = Some(Inventory {
        items: vec![Item::Sword(Sword { equipped: false, id: 5 }), Item::ChestArmor(ChestArmor { equipped: false, id: 6 })],
    });
    r
}

#[test]
fn equip_and_unequip_items() {
    let mut world = World::new(Vec::new());
    let e = world.spawn(wearer());
    equip_event_system(&mut world, e, EquipmentSlot::Weapon, 5);
    {
        let rec = world.entities[e.0].as_ref().unwrap();
        assert!(matches!(rec.equipment.unwrap().weapon, Some(Item::Sword(_))));
        assert_eq!(rec.inventory.as_ref().unwrap().items.len(), 1);
    }
    equip_event_system(&mut world, e, EquipmentSlot::Weapon, 6);
    assert_eq!(world.entities[e.0].as_ref().unwrap().inventory.as_ref().unwrap().items.len(), 1);
    equip_event_system(&mut world, e, EquipmentSlot::Chest, 6);
    update_stats(&mut world);
    {
        let rec = world.entities[e.0].as_ref().unwrap();
        assert_eq!(rec.melee.unwrap().current_damage, Damage { min: 5, max: 10 });
        assert_eq!(rec.health.unwrap().current, Range { min: 10, max: 20 });
    }
    unequip_event_system(&mut world, e, EquipmentSlot::Weapon);
    update_stats(&mut world);
    let rec = world.entities[e.0].as_ref().unwrap();
    assert_eq!(rec.inventory.as_ref().unwrap().items.len(), 1);
    assert_eq!(rec.melee.unwrap().current_damage, Damage { min: 1, max: 2 });
}

#[test]
fn equipment_slots() {
    let mut eq = Equipment { weapon: None, chest: None };
    equip_item(&mut eq, Item::Sword(Sword { equipped: false, id: 1 }), EquipmentSlot::Weapon);
    assert!(eq.weapon.is_some());
    equip_item(&mut eq, Item::Gold(roguelike_core::components::GoldDrop { value: 1 }), EquipmentSlot::Chest);
    assert!(eq.chest.is_none());
    let taken = unequip_and_return_item(&mut eq, EquipmentSlot::Weapon);
    assert!(matches!(taken, Some(Item::Sword(_))));
    assert!(eq.weapon.is_none());
    assert_eq!(Item::Sword(Sword { equipped: false, id: 3 }).id(), 3);
    assert_eq!(Item::ChestArmor(ChestArmor { equipped: false, id: 4 }).defense(), Some(5));
}

#[test]
fn level_setup_places_everything_on_floor() {
    let mut world = World::new(Vec::new());
    let spots = spawn_map(&mut world).unwrap();
    assert!(!spots.is_empty());
    for s in spots.iter() {
        assert!(world.board.tiles.contains(s));
    }
    for rec in world.entities.iter().flatten() {
        if rec.wall {
            assert!(!spots.contains(&rec.position.unwrap()));
        }
    }
    let before = world.entities.len();
    let player = spawn_player(&mut world, &spots);
    assert_eq!(player_position(&world), Some(spots[0]));
    spawn_npcs(&mut world, &spots);
    assert_eq!(world.entities.len(), before + 1 + 31);
    for rec in world.entities[before..].iter().flatten() {
        assert!(spots.contains(&rec.position.unwrap()));
    }
    world.entities[player.0].as_mut().unwrap().position = Some(v(-100, -100));
    randomly_reposition_player(&mut world, &spots);
    assert_eq!(player_position(&world), Some(spots[0]));
    let arrow = spawn_projectile(&mut world, spots[0], spots[1]);
    assert_eq!(world.entities[arrow.0].as_ref().unwrap().projectile.unwrap().destination, spots[1]);
}
