use std::collections::HashSet;

use puzzles::overlaps::Overlaps;
use puzzles::rect::Rect;

#[test]
fn test_overlaps() {
    let rects = [
        Rect { id: 1, x: 1, y: 3, width: 4, height: 4 },
        Rect { id: 2, x: 3, y: 1, width: 4, height: 4 },
        Rect { id: 3, x: 5, y: 5, width: 2, height: 2 },
    ];

    let overlaps = Overlaps::new(&rects);

    let area = overlaps.overlap_area();
    assert_eq!(area, 4);

    let expected: HashSet<u32> = [3].iter().cloned().collect();

    let non_overlapping_ids: HashSet<u32> =
        overlaps
        .iter_non_overlapping_rects()
        .iter()
        .map(|rect| rect.id)
        .collect();

    assert_eq!(non_overlapping_ids, expected);
}

#[test]
fn test_overlaps_empty() {
    let rects = vec![];

    let overlaps = Overlaps::new(&rects);
    let area = overlaps.overlap_area();

    assert_eq!(area, 0);
}

#[test]
fn test_overlaps_zero_size_rects() {
    let rects = vec![
        Rect { id: 1, x: 1, y: 1, width: 1, height: 1 },
        Rect { id: 2, x: 1, y: 1, width: 0, height: 0 },
    ];

    let overlaps = Overlaps::new(&rects);
    let area = overlaps.overlap_area();

    assert_eq!(area, 0);

    let non_overlapping: Vec<_> = overlaps.iter_non_overlapping_rects();

    assert_eq!(non_overlapping.len(), 2);
}

#[test]
fn test_empty_input_queries() {
    let rects: Vec<Rect> = vec![];
    let overlaps = Overlaps::new(&rects);

    assert_eq!(overlaps.overlap_area(), 0);
    assert!(overlaps.iter_non_overlapping_rects().is_empty());
}

#[test]
fn test_degenerate_rect_contributes_nothing() {
    let with_empty = [
        Rect { id: 1, x: 2, y: 2, width: 3, height: 3 },
        Rect { id: 2, x: 2, y: 2, width: 0, height: 5 },
        Rect { id: 3, x: 2, y: 2, width: 5, height: 0 },
    ];
    let overlaps = Overlaps::new(&with_empty);

    assert_eq!(overlaps.overlap_area(), 0);

    let ids: Vec<u32> = overlaps
        .iter_non_overlapping_rects()
        .iter()
        .map(|rect| rect.id)
        .collect();
    assert_eq!(ids, vec![1, 2, 3]);
}

#[test]
fn test_saturated_cell_still_counts_once() {
    let mut rects = Vec::new();
    for id in 0..300u32 {
        rects.push(Rect { id, x: 0, y: 0, width: 1, height: 1 });
    }
    rects.push(Rect { id: 300, x: 1, y: 0, width: 1, height: 1 });

    let overlaps = Overlaps::new(&rects);

    assert_eq!(overlaps.overlap_area(), 1);

    let ids: Vec<u32> = overlaps
        .iter_non_overlapping_rects()
        .iter()
        .map(|rect| rect.id)
        .collect();
    assert_eq!(ids, vec![300]);
}

#[test]
fn test_non_overlapping_rects_keep_input_order() {
    let rects = [
        Rect { id: 9, x: 0, y: 0, width: 2, height: 2 },
        Rect { id: 4, x: 10, y: 0, width: 2, height: 2 },
        Rect { id: 7, x: 20, y: 0, width: 2, height: 2 },
        Rect { id: 5, x: 20, y: 1, width: 2, height: 2 },
        Rect { id: 2, x: 30, y: 0, width: 2, height: 2 },
    ];
    let overlaps = Overlaps::new(&rects);

    let ids: Vec<u32> = overlaps
        .iter_non_overlapping_rects()
        .iter()
        .map(|rect| rect.id)
        .collect();
    assert_eq!(ids, vec![9, 4, 2]);
}
