//! Tests of the light-diffusion pipeline: seeding, propagation, convergence
//! and the per-tick entry point.

use tileworld::array2d::Array2D;
use tileworld::collision::collect_solid_tiles;
use tileworld::fast_array2d::FastArray2D;
use tileworld::lighting::{
    clear_interior, gen_fade_map, propogate_light_map_unbounded, update_lighting, MAX_BRIGHTNESS,
    MAX_FADE, MIN_FADE, OPAQUE_FADE,
};
use tileworld::tile::Tile;

/// A 10x10 light map whose border ring sits at full brightness and whose
/// interior is dark, except for the given source cells at full brightness.
fn light_with_sources(sources: &[usize]) -> Array2D<u8> {
    let mut v = vec![0u8; 100];
    for c in 0..100 {
        let (x, y) = (c % 10, c / 10);
        if x == 0 || x == 9 || y == 0 || y == 9 {
            v[c] = MAX_BRIGHTNESS;
        }
    }
    for &c in sources {
        v[c] = MAX_BRIGHTNESS;
    }
    Array2D::from_box(10, 10, v)
}

/// A 10x10 fade map with the given uniform interior fade and an impassable
/// border.
fn uniform_fade(fade: u8) -> Array2D<u8> {
    let mut v = vec![fade; 100];
    for c in 0..100 {
        let (x, y) = (c % 10, c / 10);
        if x == 0 || x == 9 || y == 0 || y == 9 {
            v[c] = MAX_FADE;
        }
    }
    Array2D::from_box(10, 10, v)
}

/// After convergence no relaxation may remain possible anywhere.
fn assert_settled(light: &Array2D<u8>, fade: &Array2D<u8>) {
    for y in 1..9usize {
        for x in 1..9usize {
            let c = x + y * 10;
            let floor = light.raw()[c].saturating_sub(fade.raw()[c]);
            assert!(light.raw()[c - 1] >= floor);
            assert!(light.raw()[c + 1] >= floor);
            assert!(light.raw()[c - 10] >= floor);
            assert!(light.raw()[c + 10] >= floor);
        }
    }
}

#[test]
fn single_source_decays_by_fade_per_step() {
    let mut light = light_with_sources(&[55]);
    let fade = uniform_fade(MIN_FADE);
    propogate_light_map_unbounded(&mut light, &fade, vec![55]);
    // With uniform unit fade, brightness falls with Manhattan distance from
    // the source at (5, 5): 16, 15, 14, 13, ...
    for y in 1..9i32 {
        for x in 1..9i32 {
            let d = (x - 5).abs() + (y - 5).abs();
            let expect = (MAX_BRIGHTNESS as i32 - d).max(0) as u8;
            assert_eq!(light.raw()[(x + y * 10) as usize], expect, "cell ({x},{y})");
        }
    }
    assert_settled(&light, &fade);
}

#[test]
fn opaque_fade_decays_three_per_step() {
    let mut light = light_with_sources(&[55]);
    let fade = uniform_fade(OPAQUE_FADE);
    propogate_light_map_unbounded(&mut light, &fade, vec![55]);
    // Through solid fade the decay is three per step: 16, 13, 10, 7, ...
    for y in 1..9i32 {
        for x in 1..9i32 {
            let d = (x - 5).abs() + (y - 5).abs();
            let expect = (MAX_BRIGHTNESS as i32 - 3 * d).max(0) as u8;
            assert_eq!(light.raw()[(x + y * 10) as usize], expect, "cell ({x},{y})");
        }
    }
    assert_settled(&light, &fade);
}

#[test]
fn propagation_converges_with_mixed_fade() {
    // An uneven fade field with several sources still ends settled.
    let mut fade_v = vec![MIN_FADE; 100];
    for c in 0..100 {
        let (x, y) = (c % 10, c / 10);
        if x == 0 || x == 9 || y == 0 || y == 9 {
            fade_v[c] = MAX_FADE;
        } else if (x + 2 * y) % 3 == 0 {
            fade_v[c] = OPAQUE_FADE;
        }
    }
    let fade = Array2D::from_box(10, 10, fade_v);
    let mut light = light_with_sources(&[11, 88]);
    propogate_light_map_unbounded(&mut light, &fade, vec![11, 88]);
    assert_settled(&light, &fade);
}

#[test]
fn clear_interior_spares_the_border() {
    let mut light: Array2D<u8> = Array2D::from_value(4, 4, 9);
    clear_interior(&mut light);
    for y in 0..4usize {
        for x in 0..4usize {
            let expect = if x == 0 || x == 3 || y == 0 || y == 3 { 9 } else { 0 };
            assert_eq!(light.get(x, y), Some(&expect));
        }
    }
}

#[test]
fn fade_map_seeds_open_sky() {
    // All-air tiles: every interior cell is an open-sky source, queued in
    // ascending storage order.
    let fg: FastArray2D<Tile> = FastArray2D::from_value(3, 3, Tile::Air);
    let bg: FastArray2D<Tile> = FastArray2D::from_value(3, 3, Tile::Air);
    let mut light: Array2D<u8> = Array2D::from_value(10, 10, MAX_BRIGHTNESS);
    let mut fade: Array2D<u8> = Array2D::from_value(10, 10, MAX_FADE);
    let lights = gen_fade_map(256, 256, &fg, &bg, &mut fade, &mut light);
    assert_eq!(lights.len(), 64);
    assert_eq!(lights[0], 11);
    assert_eq!(lights[63], 88);
    assert!(lights.windows(2).all(|p| p[0] < p[1]));
    for y in 1..9usize {
        for x in 1..9usize {
            assert_eq!(fade.get(x, y), Some(&MIN_FADE));
            assert_eq!(light.get(x, y), Some(&MAX_BRIGHTNESS));
        }
    }
}

#[test]
fn fade_map_grades_walls() {
    // A background-only wall fades transparently; a solid foreground fades
    // opaquely and is no source.
    let mut fg: FastArray2D<Tile> = FastArray2D::from_value(3, 3, Tile::Air);
    let mut bg: FastArray2D<Tile> = FastArray2D::from_value(3, 3, Tile::Air);
    bg.set(2, 3, Tile::Dirt);
    fg.set(5, 4, Tile::Stone);
    let mut light: Array2D<u8> = Array2D::from_value(10, 10, MAX_BRIGHTNESS);
    let mut fade: Array2D<u8> = Array2D::from_value(10, 10, MAX_FADE);
    let lights = gen_fade_map(256, 256, &fg, &bg, &mut fade, &mut light);
    assert_eq!(lights.len(), 62);
    assert!(!lights.contains(&32));
    assert!(!lights.contains(&45));
    assert_eq!(fade.get(2, 3), Some(&MIN_FADE)); // TRANSPARENT_FADE == MIN_FADE
    assert_eq!(fade.get(5, 4), Some(&OPAQUE_FADE));
    assert_eq!(fade.get(1, 1), Some(&MIN_FADE));
}

#[test]
fn stone_column_under_open_sky() {
    // An 8x8 tile window, all open sky except a full-height stone column at
    // x = 4.  Every open cell is itself a source at full brightness; the
    // stone cells are lit from their sky neighbours one fade step down, and
    // their own opaque fade keeps them from brightening anything further.
    let mut fg: FastArray2D<Tile> = FastArray2D::from_value(3, 3, Tile::Air);
    let bg: FastArray2D<Tile> = FastArray2D::from_value(3, 3, Tile::Air);
    for y in 0..8 {
        fg.set(4, y, Tile::Stone);
    }
    let mut light: Array2D<u8> = Array2D::from_value(10, 10, MAX_BRIGHTNESS);
    let mut fade: Array2D<u8> = Array2D::from_value(10, 10, MAX_FADE);
    update_lighting(256, 256, 128, 128, &fg, &bg, &mut light, &mut fade);
    for y in 1..9usize {
        for x in 1..9usize {
            if x == 4 {
                assert_eq!(fade.get(x, y), Some(&OPAQUE_FADE));
                assert_eq!(light.get(x, y), Some(&(MAX_BRIGHTNESS - MIN_FADE)));
            } else {
                assert_eq!(fade.get(x, y), Some(&MIN_FADE));
                assert_eq!(light.get(x, y), Some(&MAX_BRIGHTNESS));
            }
        }
    }
    // The border ring is never touched.
    for c in 0..10usize {
        assert_eq!(light.get(c, 0), Some(&MAX_BRIGHTNESS));
        assert_eq!(light.get(c, 9), Some(&MAX_BRIGHTNESS));
        assert_eq!(fade.get(0, c), Some(&MAX_FADE));
        assert_eq!(fade.get(9, c), Some(&MAX_FADE));
    }
    assert_settled(&light, &fade);
}

#[test]
fn tick_decays_away_from_a_lone_skylight() {
    // Solid foreground everywhere except one open-sky cell: the single
    // source decays outward by the opaque fade, showing the falloff the
    // fade constants dictate.
    let mut fg: FastArray2D<Tile> = FastArray2D::from_value(3, 3, Tile::Stone);
    let bg: FastArray2D<Tile> = FastArray2D::from_value(3, 3, Tile::Air);
    fg.set(4, 4, Tile::Air);
    let mut light: Array2D<u8> = Array2D::from_value(10, 10, MAX_BRIGHTNESS);
    let mut fade: Array2D<u8> = Array2D::from_value(10, 10, MAX_FADE);
    update_lighting(256, 256, 128, 128, &fg, &bg, &mut light, &mut fade);
    for y in 1..9i32 {
        for x in 1..9i32 {
            // The lone sky cell (4, 4) seeds 16 and fades 1; every stone
            // cell fades 3 per step on the way out.
            let d = (x - 4).abs() + (y - 4).abs();
            let expect = if d == 0 {
                MAX_BRIGHTNESS as i32
            } else {
                (MAX_BRIGHTNESS as i32 - MIN_FADE as i32 - 3 * (d - 1)).max(0)
            };
            assert_eq!(
                light.get(x as usize, y as usize),
                Some(&(expect as u8)),
                "cell ({x},{y})"
            );
        }
    }
    assert_settled(&light, &fade);
}

#[test]
fn collect_solid_tiles_filters_air() {
    let mut tiles: FastArray2D<Tile> = FastArray2D::from_value(3, 3, Tile::Air);
    tiles.set(1, 0, Tile::Stone);
    tiles.set(0, 1, Tile::Dirt);
    let mut out: Vec<Tile> = vec![Tile::Stone];
    collect_solid_tiles(&tiles, 0, 2, 0, 2, &mut out);
    assert_eq!(out, vec![Tile::Stone, Tile::Stone, Tile::Dirt]);
    // A rectangle of pure air adds nothing.
    let mut none: Vec<Tile> = Vec::new();
    collect_solid_tiles(&tiles, 2, 5, 2, 5, &mut none);
    assert_eq!(none.len(), 0);
}
