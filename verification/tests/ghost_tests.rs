use replication::ghost_player::{get_player_id_list, GhostWorld};
use replication::text::get_sprite_filename;
use replication::wire::{PlayerMovedUpdate, PlayerMovement};

fn movement(vx: f32, tx: f32) -> PlayerMovement {
    PlayerMovement {
        velocity_x: vx.to_bits(),
        velocity_y: 0.0f32.to_bits(),
        translation_x: tx.to_bits(),
        translation_y: 0.0f32.to_bits(),
    }
}

fn update(id: u64, vx: f32, tx: f32) -> PlayerMovedUpdate {
    PlayerMovedUpdate { id, movement: movement(vx, tx) }
}

fn ids_of(world: &GhostWorld) -> Vec<u64> {
    let mut ids = Vec::new();
    for k in 0..world.len() {
        ids.push(world.get(k).id);
    }
    ids.sort();
    ids
}

// Scenario: reconciling snapshots {1, 2} then {2, 3} despawns id 1, updates
// id 2, spawns id 3, and leaves exactly the ghost set {2, 3}.
#[test]
fn consecutive_snapshots_diff_correctly() {
    let mut world = GhostWorld::new();
    let first = vec![update(1, 1.0, 10.0), update(2, 2.0, 20.0)];
    let outcome1 = world.moved_players_updated(&first);
    assert_eq!(outcome1.spawned, vec![1, 2]);
    assert!(outcome1.updated.is_empty());
    assert!(outcome1.despawned.is_empty());

    let second = vec![update(2, 2.5, 25.0), update(3, 3.0, 30.0)];
    let outcome2 = world.moved_players_updated(&second);
    assert_eq!(outcome2.despawned, vec![1]);
    assert_eq!(outcome2.updated, vec![2]);
    assert_eq!(outcome2.spawned, vec![3]);
    assert_eq!(ids_of(&world), vec![2, 3]);
}

#[test]
fn matched_ghosts_take_the_snapshot_movement() {
    let mut world = GhostWorld::new();
    let _ = world.moved_players_updated(&vec![update(5, 1.0, 1.0)]);
    let _ = world.moved_players_updated(&vec![update(5, -3.5, 99.0)]);
    assert_eq!(world.len(), 1);
    let ghost = world.get(0);
    assert_eq!(ghost.id, 5);
    assert_eq!(f32::from_bits(ghost.movement.velocity_x), -3.5);
    assert_eq!(f32::from_bits(ghost.movement.translation_x), 99.0);
}

// An empty snapshot despawns all ghosts once, and a second empty snapshot
// is a no-op.
#[test]
fn empty_snapshot_twice_is_idempotent() {
    let mut world = GhostWorld::new();
    let _ = world.moved_players_updated(&vec![update(1, 1.0, 1.0), update(2, 2.0, 2.0)]);
    let empty: Vec<PlayerMovedUpdate> = Vec::new();
    let first = world.moved_players_updated(&empty);
    assert_eq!(first.despawned, vec![1, 2]);
    assert_eq!(world.len(), 0);
    let second = world.moved_players_updated(&empty);
    assert!(second.despawned.is_empty());
    assert!(second.updated.is_empty());
    assert!(second.spawned.is_empty());
    assert_eq!(world.len(), 0);
}

// When a snapshot carries an id twice, the last entry wins and only one
// ghost exists for the id.
#[test]
fn duplicate_snapshot_entries_last_wins() {
    let mut world = GhostWorld::new();
    let _ = world.moved_players_updated(&vec![update(4, 1.0, 1.0), update(4, 2.0, 2.0)]);
    assert_eq!(world.len(), 1);
    assert_eq!(f32::from_bits(world.get(0).movement.velocity_x), 2.0);
}

#[test]
fn spawn_move_despawn_one_ghost() {
    let mut world = GhostWorld::new();
    world.spawn_player(7, movement(1.0, 5.0));
    assert_eq!(world.len(), 1);
    world.move_player(7, movement(2.0, 6.0));
    assert_eq!(f32::from_bits(world.get(0).movement.velocity_x), 2.0);
    assert!(world.despawn_player(7));
    assert_eq!(world.len(), 0);
    assert!(!world.despawn_player(7));
}

#[test]
fn player_id_list_keeps_snapshot_order() {
    let updates = vec![update(9, 0.0, 0.0), update(4, 0.0, 0.0), update(7, 0.0, 0.0)];
    assert_eq!(get_player_id_list(&updates), vec![9, 4, 7]);
}

// The sprite is selected deterministically from the id: one of the 19
// sprites, wrapping around after the 19th.
#[test]
fn sprite_filenames_follow_the_id() {
    assert_eq!(get_sprite_filename(0), "player_sprites/Charakter1.png");
    assert_eq!(get_sprite_filename(7), "player_sprites/Charakter8.png");
    assert_eq!(get_sprite_filename(18), "player_sprites/Charakter19.png");
    assert_eq!(get_sprite_filename(19), "player_sprites/Charakter1.png");
    assert_eq!(get_sprite_filename(20), "player_sprites/Charakter2.png");
}
