use std::collections::VecDeque;

use necrofactory::factory::{MachineDef, RecipeDef, RecipeKindDef, ResolvedRegistry, resolve_recipes};
use necrofactory::graphics::{missing_chunks, plan_chunks};
use necrofactory::item::ItemDef;
use necrofactory::math::vec::IVec2;
use necrofactory::modding::asset_loading::{LoadStatus, sort_loads};
use necrofactory::modding::registration::{LoadCounters, take_batch};
use necrofactory::modding::registry::{ModInfo, ModLoadState};
use necrofactory::modding::types::{DefHandle, DefId, Registry};
use necrofactory::world::World;
use necrofactory::world::chunk::Chunk;
use necrofactory::world::tile::TileDef;

fn id(s: &str) -> DefId {
    DefId::new(s).unwrap()
}

#[test]
fn load_counters_percent_and_state() {
    let mut c = LoadCounters::new();
    assert_eq!(c.percent(), 100);
    assert_eq!(c.next_state(), Some(ModLoadState::Resolve));
    c.add_pending(4);
    assert_eq!(c.percent(), 0);
    assert_eq!(c.next_state(), None);
    let mut queue: VecDeque<(DefHandle<ModInfo>, String)> = VecDeque::new();
    for k in 0..4 {
        queue.push_back((DefHandle::new(1), format!("tiles/{}.ron", k)));
    }
    let batch = take_batch(&mut queue, &mut c, 3);
    assert_eq!(batch.len(), 3);
    assert_eq!(batch[0].1, "tiles/0.ron");
    assert_eq!(queue.len(), 1);
    assert_eq!((c.pending, c.active, c.complete), (1, 3, 0));
    // No room for more while three are loading.
    assert!(take_batch(&mut queue, &mut c, 3).is_empty());
    c.finish_one();
    assert_eq!(c.percent(), 25);
    let rest = take_batch(&mut queue, &mut c, 3);
    assert_eq!(rest.len(), 1);
    assert_eq!(rest[0].1, "tiles/3.ron");
    c.finish_one();
    c.finish_one();
    c.finish_one();
    assert_eq!(c.percent(), 100);
    assert_eq!(c.next_state(), Some(ModLoadState::Resolve));
}

#[test]
fn sprite_loads_are_sorted() {
    let h = |n: u32| DefHandle::<TileDef>::new(n);
    let report = sort_loads(&vec![
        (h(1), LoadStatus::Loaded),
        (h(2), LoadStatus::Loading),
        (h(3), LoadStatus::Failed),
        (h(4), LoadStatus::Loaded),
    ]);
    let done: Vec<u32> = report.complete.iter().map(|x| x.get()).collect();
    assert_eq!(done, vec![1, 4]);
    assert_eq!(report.failed.len(), 1);
    assert_eq!(report.next_state, None);
    let finished = sort_loads(&vec![(h(1), LoadStatus::Failed)]);
    assert_eq!(finished.next_state, Some(ModLoadState::Finalize));
    assert_eq!(sort_loads(&Vec::new()).next_state, Some(ModLoadState::Finalize));
}

#[test]
fn recipes_resolve_when_all_ids_are_registered() {
    let mut kinds: Registry<RecipeKindDef> = Registry::new();
    let mut items: Registry<ItemDef> = Registry::new();
    let (kid, kind) = RecipeKindDef::from_raw(&id("base"), id("smelt"));
    kinds.register(kid, kind);
    let (iron_id, iron) = ItemDef::from_raw(&id("base"), id("iron"), "Iron".into(), "iron.png".into());
    assert_eq!(iron_id.to_string(), "base::iron");
    items.register(iron_id, iron);
    let (ore_id, ore) = ItemDef::from_raw(&id("base"), id("ore"), "Ore".into(), "ore.png".into());
    items.register(ore_id, ore);
    let mut recipes: Registry<RecipeDef> = Registry::new();
    let (r1, good) = RecipeDef::from_raw(
        &id("base"),
        id("iron"),
        DefId::new_qualified("base::smelt").unwrap(),
        vec![(DefId::new_qualified("base::ore").unwrap(), 2)],
        vec![(DefId::new_qualified("base::iron").unwrap(), 1)],
        1.5f32.to_bits(),
    );
    recipes.register(r1, good);
    let (r2, bad) = RecipeDef::from_raw(
        &id("base"),
        id("gold"),
        DefId::new_qualified("base::smelt").unwrap(),
        vec![(DefId::new_qualified("base::gold_ore").unwrap(), 1)],
        vec![],
        0,
    );
    recipes.register(r2, bad);
    let resolved: ResolvedRegistry<_> = resolve_recipes(&recipes, &kinds, &items);
    let first = resolved.get(DefHandle::new(1)).unwrap();
    assert_eq!(first.kind.get(), 1);
    assert_eq!(first.inputs[0].0.get(), 2);
    assert_eq!(first.inputs[0].1, 2);
    assert_eq!(first.outputs[0].0.get(), 1);
    assert_eq!(f32::from_bits(first.time_bits), 1.5);
    assert!(resolved.get(DefHandle::new(2)).is_none());
    assert!(resolved.get(DefHandle::new(3)).is_none());
    let (mid, machine) = MachineDef::from_raw(&id("base"), id("furnace"), vec![id("smelt")]);
    assert_eq!(mid.as_str(), "base::furnace");
    assert_eq!(machine.recipe_kinds.len(), 1);
}

#[test]
fn tile_definitions_join_ids() {
    let (tid, def) = TileDef::from_raw(&id("base"), id("stone"), "stone.png".into(), 0.5f32.to_bits(), 0);
    assert_eq!(tid.to_string(), "base::stone");
    assert_eq!(f32::from_bits(def.friction_bits), 0.5);
}

#[test]
fn chunk_plan_reuses_drawings_that_left() {
    let mut world = World::new();
    for x in -1..=1 {
        for y in -1..=1 {
            world.insert_chunk(IVec2::new(x, y), Chunk::empty());
        }
    }
    // Drawn: two chunks far away and one in range.
    let drawn = vec![IVec2::new(10, 10), IVec2::new(0, 0), IVec2::new(20, 20)];
    let plan = plan_chunks(IVec2::new(0, 0), &drawn, &world);
    assert_eq!(plan.reuse.len(), 2);
    assert_eq!(plan.reuse[0], (2, IVec2::new(-1, -1)));
    assert_eq!(plan.reuse[1], (0, IVec2::new(0, -1)));
    assert_eq!(plan.spawn.len(), 6);
    assert_eq!(plan.spawn[0], IVec2::new(1, -1));
    assert!(!plan.spawn.contains(&IVec2::new(0, 0)));
}

#[test]
fn chunk_plan_skips_chunks_the_world_lacks() {
    let world = World::new();
    let plan = plan_chunks(IVec2::new(5, 5), &vec![], &world);
    assert!(plan.reuse.is_empty());
    assert!(plan.spawn.is_empty());
}

#[test]
fn missing_chunks_around_base() {
    let mut world = World::new();
    world.insert_chunk(IVec2::new(0, 0), Chunk::empty());
    let missing = missing_chunks(&world, IVec2::new(0, 0), 1);
    assert_eq!(missing.len(), 8);
    assert!(!missing.contains(&IVec2::new(0, 0)));
    assert_eq!(missing[0], IVec2::new(-1, -1));
    assert_eq!(missing_chunks(&world, IVec2::new(0, 0), 0).len(), 0);
    assert_eq!(missing_chunks(&world, IVec2::new(3, 3), 8).len(), 288);
    assert_eq!(missing_chunks(&world, IVec2::new(30, 30), 8).len(), 289);
}
