use bevy_pixel_world::collision::contour::{build_adjacency_map, connect_segments, GridSegment};

fn key(x: i32, y: i32) -> i64 {
    ((x as i64) << 32) + (y as u32 as i64)
}

#[test]
fn closed_loop_drops_repeated_vertex() {
    let segments: Vec<GridSegment> = vec![
        ((0, 1), (1, 2)),
        ((1, 2), (2, 1)),
        ((2, 1), (1, 0)),
        ((1, 0), (0, 1)),
    ];
    let polylines = connect_segments(segments);
    assert_eq!(polylines, vec![vec![(0, 1), (1, 2), (2, 1), (1, 0)]]);
}

#[test]
fn open_chain_follows_reversed_segments() {
    let segments: Vec<GridSegment> = vec![((0, 0), (2, 0)), ((4, 0), (2, 0)), ((4, 0), (4, 2))];
    let polylines = connect_segments(segments);
    assert_eq!(polylines, vec![vec![(0, 0), (2, 0), (4, 0), (4, 2)]]);
}

#[test]
fn short_polylines_are_dropped() {
    assert!(connect_segments(vec![((0, 0), (2, 0))]).is_empty());
    assert!(connect_segments(vec![((0, 0), (2, 0)), ((6, 6), (8, 6))]).is_empty());
    assert!(connect_segments(Vec::new()).is_empty());
}

#[test]
fn traversal_only_runs_forward_from_its_start() {
    // The first segment's start is the end of the second one; the walk from
    // the first segment never looks back, so both halves stay too short.
    let segments: Vec<GridSegment> = vec![((2, 0), (4, 0)), ((0, 0), (2, 0))];
    assert!(connect_segments(segments).is_empty());
}

#[test]
fn two_separate_loops() {
    let segments: Vec<GridSegment> = vec![
        ((0, 1), (1, 2)),
        ((10, 11), (11, 12)),
        ((1, 2), (2, 1)),
        ((11, 12), (12, 11)),
        ((2, 1), (0, 1)),
        ((12, 11), (10, 11)),
    ];
    let polylines = connect_segments(segments);
    assert_eq!(
        polylines,
        vec![vec![(0, 1), (1, 2), (2, 1)], vec![(10, 11), (11, 12), (12, 11)]]
    );
}

#[test]
fn adjacency_lists_start_before_end() {
    let segments: Vec<GridSegment> = vec![((0, 0), (2, 0)), ((2, 0), (-2, -4)), ((2, 0), (2, 0))];
    let map = build_adjacency_map(&segments);
    assert_eq!(map.len(), 3);
    assert_eq!(map[&key(0, 0)], vec![(0, true)]);
    assert_eq!(map[&key(2, 0)], vec![(0, false), (1, true), (2, true), (2, false)]);
    assert_eq!(map[&key(-2, -4)], vec![(1, false)]);
}
