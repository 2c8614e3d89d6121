use einkvnc::dirty::{push_to_dirty_rect_list, Region};
use einkvnc::frame::{FrameEngine, PanelUpdate, UpdateMode};

fn region(min_x: i32, min_y: i32, max_x: i32, max_y: i32) -> Region {
    Region { min_x, min_y, max_x, max_y }
}

#[test]
fn absorb_drops_contained_rect() {
    let mut list = vec![region(0, 0, 100, 100)];
    push_to_dirty_rect_list(&mut list, region(10, 10, 20, 20));
    assert_eq!(list, vec![region(0, 0, 100, 100)]);
}

#[test]
fn absorb_replaces_contained_element() {
    let mut list = vec![region(10, 10, 20, 20), region(500, 500, 600, 600)];
    push_to_dirty_rect_list(&mut list, region(0, 0, 100, 100));
    assert_eq!(list, vec![region(0, 0, 100, 100), region(500, 500, 600, 600)]);
}

#[test]
fn absorb_extends_horizontal_neighbour() {
    let mut list = vec![region(0, 0, 10, 10)];
    push_to_dirty_rect_list(&mut list, region(10, 0, 30, 10));
    assert_eq!(list, vec![region(0, 0, 30, 10)]);
}

#[test]
fn absorb_appends_unrelated_rect() {
    let mut list = vec![region(0, 0, 10, 10)];
    push_to_dirty_rect_list(&mut list, region(50, 50, 60, 60));
    assert_eq!(list, vec![region(0, 0, 10, 10), region(50, 50, 60, 60)]);
    // no element contains another afterwards
    for i in 0..list.len() {
        for j in 0..list.len() {
            if i != j {
                let a = &list[i];
                let b = &list[j];
                assert!(!(a.min_x <= b.min_x
                    && b.max_x <= a.max_x
                    && a.min_y <= b.min_y
                    && b.max_y <= a.max_y));
            }
        }
    }
}

fn fb() -> Region {
    region(0, 0, 640, 480)
}

#[test]
fn whole_frame_put_clears_both_lists_then_small_rect_is_fast_mono() {
    let mut engine = FrameEngine::new(fb());
    // seed some dirt first
    engine.on_copy_pixels(region(0, 0, 30, 30));
    let updates = engine.on_put_pixels(fb());
    assert_eq!(
        updates,
        vec![PanelUpdate { rect: fb(), mode: UpdateMode::Full }]
    );
    assert!(engine.dirty_rects.is_empty());
    assert!(engine.dirty_rects_since_refresh.is_empty());
    assert_eq!(engine.dirty_update_count, 0);

    // a subsequent small draw produces a single fast monochrome update
    let updates = engine.on_put_pixels(region(0, 0, 50, 50));
    assert!(updates.is_empty());
    let updates = engine.on_end_of_frame();
    assert_eq!(
        updates,
        vec![PanelUpdate { rect: region(0, 0, 50, 50), mode: UpdateMode::FastMono }]
    );
    assert!(engine.dirty_rects.is_empty());
}

#[test]
fn first_draw_of_the_session_is_full() {
    let mut engine = FrameEngine::new(fb());
    engine.on_put_pixels(region(0, 0, 50, 50));
    let updates = engine.on_end_of_frame();
    assert_eq!(
        updates,
        vec![PanelUpdate { rect: region(0, 0, 50, 50), mode: UpdateMode::Full }]
    );
}

#[test]
fn large_rect_gets_partial_update() {
    let mut engine = FrameEngine::new(fb());
    engine.on_put_pixels(fb()); // first draw out of the way
    engine.on_put_pixels(region(0, 0, 200, 50));
    let updates = engine.on_end_of_frame();
    assert_eq!(
        updates,
        vec![PanelUpdate { rect: region(0, 0, 200, 50), mode: UpdateMode::Partial }]
    );
}

#[test]
fn idle_sweep_refreshes_backlog_in_full_once() {
    let mut engine = FrameEngine::new(fb());
    engine.on_put_pixels(fb());
    engine.on_put_pixels(region(5, 5, 30, 30));
    engine.on_end_of_frame();
    assert_eq!(engine.dirty_rects_since_refresh, vec![region(5, 5, 30, 30)]);

    // not yet: only three seconds passed
    assert!(engine.on_idle(3).is_empty());
    assert_eq!(engine.dirty_rects_since_refresh.len(), 1);

    // after more than three seconds: exactly one full update, then nothing
    let updates = engine.on_idle(4);
    assert_eq!(
        updates,
        vec![PanelUpdate { rect: region(5, 5, 30, 30), mode: UpdateMode::Full }]
    );
    assert!(engine.dirty_rects_since_refresh.is_empty());
    assert_eq!(engine.dirty_update_count, 0);
    assert!(engine.on_idle(10).is_empty());
}

#[test]
fn empty_frames_leave_the_counter_alone() {
    let mut engine = FrameEngine::new(fb());
    engine.on_put_pixels(fb());
    engine.on_put_pixels(region(0, 0, 10, 10));
    engine.on_end_of_frame();
    assert_eq!(engine.dirty_update_count, 1);
    // a frame that produced no work does not count towards the threshold
    for _ in 0..5 {
        let updates = engine.on_end_of_frame();
        assert!(updates.is_empty());
        assert_eq!(engine.dirty_update_count, 1);
    }
}

#[test]
fn counter_never_passes_threshold_and_forces_full_refresh() {
    let mut engine = FrameEngine::new(fb());
    engine.on_put_pixels(fb());
    for i in 0..500 {
        engine.on_put_pixels(region(0, 0, 10 + (i % 3), 10));
        let updates = engine.on_end_of_frame();
        assert!(engine.dirty_update_count <= 500);
        assert!(updates.iter().all(|u| u.mode != UpdateMode::Full));
    }
    assert_eq!(engine.dirty_update_count, 500);
    // the next frame forces a full refresh of the whole backlog and resets
    engine.on_put_pixels(region(100, 100, 130, 130));
    let updates = engine.on_end_of_frame();
    assert!(!updates.is_empty());
    assert!(updates.iter().all(|u| u.mode == UpdateMode::Full));
    assert_eq!(engine.dirty_update_count, 0);
    assert!(engine.dirty_rects_since_refresh.is_empty());
}
