//! Tests of the chunk-streaming cache: refresh transitions, stale rejection,
//! tile updates and the local edit path.

use tileworld::chunk_cache::{
    apply_update_chunk, apply_update_tile, break_background, break_foreground,
    request_chunks_from_server,
};
use tileworld::fast_array2d::FastArray2D;
use tileworld::input::{InputKey, InputQueues, KeyState};
use tileworld::net_event::NetEvent;
use tileworld::tile::Tile;

fn fresh_chunks() -> FastArray2D<(u16, u16)> {
    FastArray2D::from_value(3, 3, (u16::MAX, u16::MAX))
}

fn requested(events: &[NetEvent]) -> Vec<(u16, u16)> {
    events
        .iter()
        .map(|e| match e {
            NetEvent::RequestChunk(x, y) => (*x, *y),
            _ => panic!("unexpected event"),
        })
        .collect()
}

#[test]
fn refresh_requests_every_new_assignment_once() {
    let mut chunks = fresh_chunks();
    let mut outbound: Vec<NetEvent> = Vec::new();
    // A 1x1-pixel viewport at the origin needs chunks [0,2) x [0,2).
    request_chunks_from_server(0, 0, 1, 1, &mut chunks, &mut outbound);
    assert_eq!(requested(&outbound), vec![(0, 0), (1, 0), (0, 1), (1, 1)]);
    // The same viewport again: every slot already carries its chunk, so no
    // request is emitted.
    outbound.clear();
    request_chunks_from_server(0, 0, 1, 1, &mut chunks, &mut outbound);
    assert_eq!(outbound.len(), 0);
}

#[test]
fn refresh_requests_only_transitions() {
    let mut chunks = fresh_chunks();
    let mut outbound: Vec<NetEvent> = Vec::new();
    request_chunks_from_server(0, 0, 1, 1, &mut chunks, &mut outbound);
    outbound.clear();
    // Moving right two chunks widens the resident window to [1,4) x [0,2);
    // column 1 is already assigned, columns 2 and 3 are new.
    request_chunks_from_server(256, 0, 1, 1, &mut chunks, &mut outbound);
    assert_eq!(requested(&outbound), vec![(2, 0), (3, 0), (2, 1), (3, 1)]);
    // And again: nothing changed, nothing is emitted.
    outbound.clear();
    request_chunks_from_server(256, 0, 1, 1, &mut chunks, &mut outbound);
    assert_eq!(outbound.len(), 0);
}

#[test]
fn update_chunk_applies_when_tag_matches() {
    let mut chunks = fresh_chunks();
    chunks.set(0, 0, (0, 0));
    let mut tiles: FastArray2D<Tile> = FastArray2D::from_value(3, 3, Tile::Air);
    let payload = vec![Tile::Stone; 64];
    assert!(apply_update_chunk(&chunks, &mut tiles, 0, 0, payload));
    for y in 0..8 {
        for x in 0..8 {
            assert_eq!(tiles.get(x, y), Some(&Tile::Stone));
        }
    }
}

#[test]
fn stale_update_chunk_leaves_tiles_unchanged() {
    let chunks = fresh_chunks();
    // No slot is assigned, so any inbound chunk is stale.
    let mut tiles: FastArray2D<Tile> = FastArray2D::from_value(3, 3, Tile::Dirt);
    let payload = vec![Tile::Stone; 64];
    assert!(!apply_update_chunk(&chunks, &mut tiles, 1, 0, payload));
    for y in 0..8 {
        for x in 0..8 {
            assert_eq!(tiles.get(x, y), Some(&Tile::Dirt));
        }
    }
}

#[test]
fn update_tile_checks_owning_chunk() {
    let mut chunks = fresh_chunks();
    chunks.set(0, 0, (0, 0));
    let mut tiles: FastArray2D<Tile> = FastArray2D::from_value(3, 3, Tile::Air);
    // Tile (3, 2) sits in chunk (0, 0), which is resident.
    assert!(apply_update_tile(&chunks, &mut tiles, 3, 2, Tile::Dirt));
    assert_eq!(tiles.get(3, 2), Some(&Tile::Dirt));
    // Tile (9, 2) sits in chunk (1, 0), which is not resident: rejected.
    assert!(!apply_update_tile(&chunks, &mut tiles, 9, 2, Tile::Stone));
    assert_eq!(tiles.get(1, 2), Some(&Tile::Air));
}

#[test]
fn breaking_blocks_clears_and_queues() {
    let mut tiles: FastArray2D<Tile> = FastArray2D::from_value(3, 3, Tile::Stone);
    let mut outbound: Vec<NetEvent> = Vec::new();
    break_foreground(&mut tiles, &mut outbound, 5, 6);
    assert_eq!(tiles.get(5, 6), Some(&Tile::Air));
    assert!(matches!(outbound[0], NetEvent::BreakForeground(5, 6)));
    break_background(&mut tiles, &mut outbound, 2, 1);
    assert_eq!(tiles.get(2, 1), Some(&Tile::Air));
    assert!(matches!(outbound[1], NetEvent::BreakBackground(2, 1)));
}

#[test]
fn input_queue_edges() {
    let mut q = InputQueues::new();
    q.apply_key_event(KeyState::Down, InputKey::W);
    assert!(q.jump_pressed());
    q.shift_frame();
    // Still held, but no longer freshly pressed.
    assert!(!q.jump_pressed());
    q.apply_key_event(KeyState::Up, InputKey::W);
    q.shift_frame();
    assert!(!q.jump_pressed());
    q.apply_key_event(KeyState::Down, InputKey::A);
    assert!(q.left_held());
    assert!(!q.right_held());
    q.apply_key_event(KeyState::Down, InputKey::LeftClick);
    assert!(q.left_clicked());
    q.shift_frame();
    assert!(!q.left_clicked());
    q.apply_key_event(KeyState::Up, InputKey::LeftClick);
    q.apply_key_event(KeyState::Down, InputKey::RightClick);
    assert!(q.right_clicked());
}
