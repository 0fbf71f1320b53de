use simple_hydrology::particle::world::{batch_count, batch_share, worker_batches};
use simple_hydrology::render::gradient::stop_interval;
use simple_hydrology::render::{toggle_overlay, OverlayMode};
use simple_hydrology::resources::{RegenerateRequest, RenderMode, ViewKind, ViewMode};
use simple_hydrology::terrain::Terrain;
use simple_hydrology::visibility::{background_visible, contours_visible, rivers_visible, view_sprite_visible};

#[test]
fn defaults() {
    let r = RenderMode::default();
    assert!(r.show_3d && r.show_contours && r.show_rivers);
    assert_eq!(ViewMode::default().kind, ViewKind::Final);
    assert!(!RegenerateRequest::default().0);
}

#[test]
fn layers_show_only_in_final_view() {
    let r = RenderMode::default();
    let fin = ViewMode::default();
    let noise = ViewMode { kind: ViewKind::InitialNoise };
    assert!(contours_visible(&r, &fin));
    assert!(!contours_visible(&r, &noise));
    assert!(rivers_visible(&r, &fin));
    assert!(!rivers_visible(&r, &noise));
    let off = RenderMode { show_3d: true, show_contours: false, show_rivers: false };
    assert!(!contours_visible(&off, &fin));
    assert!(!rivers_visible(&off, &fin));
}

#[test]
fn one_terrain_image_at_a_time() {
    let r = RenderMode::default();
    let v = ViewMode { kind: ViewKind::ProcessedNoise };
    let kinds = [
        ViewKind::Final,
        ViewKind::DrainageField,
        ViewKind::CompressedNorm,
        ViewKind::ProcessedNoise,
        ViewKind::InitialNoise,
    ];
    let shown: Vec<_> = kinds.iter().filter(|&&k| view_sprite_visible(&r, &v, k)).collect();
    assert_eq!(shown, vec![&ViewKind::ProcessedNoise]);
    assert!(!background_visible(&r, &v));
    let hidden = RenderMode { show_3d: false, show_contours: true, show_rivers: true };
    assert!(kinds.iter().all(|&k| !view_sprite_visible(&hidden, &v, k)));
    assert!(!background_visible(&hidden, &ViewMode::default()));
    assert!(background_visible(&r, &ViewMode::default()));
}

#[test]
fn overlay_keys_toggle() {
    assert_eq!(toggle_overlay(OverlayMode::Off, OverlayMode::Discharge), OverlayMode::Discharge);
    assert_eq!(toggle_overlay(OverlayMode::Discharge, OverlayMode::Discharge), OverlayMode::Off);
    assert_eq!(toggle_overlay(OverlayMode::Discharge, OverlayMode::Momentum), OverlayMode::Momentum);
    let twice = toggle_overlay(toggle_overlay(OverlayMode::Off, OverlayMode::Momentum), OverlayMode::Momentum);
    assert_eq!(twice, OverlayMode::Off);
}

#[test]
fn gradient_interval() {
    assert_eq!(stop_interval(Ok(0), 5), 0);
    assert_eq!(stop_interval(Ok(2), 5), 2);
    assert_eq!(stop_interval(Ok(4), 5), 3);
    assert_eq!(stop_interval(Err(0), 5), 0);
    assert_eq!(stop_interval(Err(3), 5), 2);
    assert_eq!(stop_interval(Err(5), 5), 3);
    assert_eq!(stop_interval(Err(1), 2), 0);
}

#[test]
fn droplet_batches() {
    assert_eq!(batch_count(8, 100), 8);
    assert_eq!(batch_count(8, 3), 3);
    assert_eq!(batch_count(8, 0), 1);
    assert_eq!(batch_share(10, 3, 0), 3);
    assert_eq!(batch_share(10, 3, 1), 3);
    assert_eq!(batch_share(10, 3, 2), 4);
    for cycles in [0usize, 1, 7, 100, 512 * 512] {
        for batches in 1..9 {
            let total: usize = (0..batches).map(|t| batch_share(cycles, batches, t)).sum();
            assert_eq!(total, cycles);
        }
    }
    let n = worker_batches(1000);
    assert!(n >= 1 && n <= 1000);
    assert_eq!(worker_batches(1), 1);
    assert_eq!(worker_batches(0), 1);
}

#[test]
fn terrain_keeps_its_seed() {
    assert_eq!(Terrain::new(42).seed, 42);
}
