use langstat::{calculate_treemap_rects, sorted_positive_entries, LanguageStats};

fn entry(lang: &str, score: u128, repos: u32) -> (String, LanguageStats) {
    (
        String::from(lang),
        LanguageStats {
            bytes: score,
            repo_count: repos,
        },
    )
}

#[test]
fn sort_filters_zero_scores_and_orders_descending() {
    let stats = vec![
        entry("A", 5, 1),
        entry("B", 0, 1),
        entry("C", 9, 2),
        entry("D", 7, 1),
    ];
    let sorted = sorted_positive_entries(&stats);
    let names: Vec<&str> = sorted.iter().map(|(k, _)| k.as_str()).collect();
    assert_eq!(names, vec!["C", "D", "A"]);
}

#[test]
fn sort_keeps_input_order_on_ties() {
    let stats = vec![entry("A", 5, 1), entry("B", 5, 1), entry("C", 5, 1)];
    let sorted = sorted_positive_entries(&stats);
    let names: Vec<&str> = sorted.iter().map(|(k, _)| k.as_str()).collect();
    assert_eq!(names, vec!["A", "B", "C"]);
}

#[test]
fn two_language_canvas_split() {
    // Go 6000, Rust 5000 on an 800 x 550 band below the title.
    let stats = vec![entry("Go", 6000, 2), entry("Rust", 5000, 1)];
    let sorted = sorted_positive_entries(&stats);
    let rects = calculate_treemap_rects(&sorted, 800, 550, 0, 50);
    assert_eq!(rects.len(), 2);

    // Canvas is wider than tall: Go takes a vertical slice of width
    // 800 * 6000 / 11000, rounded down.
    assert_eq!(rects[0].language, "Go");
    assert_eq!((rects[0].x, rects[0].y), (0, 50));
    assert_eq!((rects[0].width, rects[0].height), (436, 550));

    // The remainder (364 x 550) is taller than wide: Rust takes a horizontal
    // slice of height 550 * 5000 / 11000.
    assert_eq!(rects[1].language, "Rust");
    assert_eq!((rects[1].x, rects[1].y), (436, 50));
    assert_eq!((rects[1].width, rects[1].height), (364, 250));
}

#[test]
fn single_language_fills_the_canvas() {
    let stats = vec![entry("Go", 1234, 1)];
    let sorted = sorted_positive_entries(&stats);
    let rects = calculate_treemap_rects(&sorted, 800, 550, 0, 50);
    assert_eq!(rects.len(), 1);
    assert_eq!((rects[0].x, rects[0].y), (0, 50));
    assert_eq!((rects[0].width, rects[0].height), (800, 550));
}

#[test]
fn empty_input_gives_no_rectangles() {
    let stats = Vec::new();
    let sorted = sorted_positive_entries(&stats);
    let rects = calculate_treemap_rects(&sorted, 800, 550, 0, 50);
    assert!(rects.is_empty());
}

#[test]
fn rectangles_stay_inside_the_canvas_and_do_not_overlap() {
    let stats = vec![
        entry("A", 10, 1),
        entry("B", 20, 1),
        entry("C", 30, 1),
        entry("D", 40, 1),
        entry("E", 50, 1),
    ];
    let sorted = sorted_positive_entries(&stats);
    let rects = calculate_treemap_rects(&sorted, 800, 550, 0, 50);
    for r in &rects {
        assert!(r.y >= 50);
        assert!(r.x + r.width <= 800);
        assert!(r.y + r.height <= 600);
    }
    for i in 0..rects.len() {
        for j in (i + 1)..rects.len() {
            let (a, b) = (&rects[i], &rects[j]);
            let separated = a.x + a.width <= b.x
                || b.x + b.width <= a.x
                || a.y + a.height <= b.y
                || b.y + b.height <= a.y;
            assert!(separated, "tiles {} and {} overlap", i, j);
        }
    }
    // Order follows descending scores.
    for i in 1..rects.len() {
        assert!(rects[i - 1].stats.bytes >= rects[i].stats.bytes);
    }
}

#[test]
fn placed_areas_never_exceed_the_canvas_area() {
    let stats = vec![entry("A", 3, 1), entry("B", 3, 1), entry("C", 3, 1)];
    let sorted = sorted_positive_entries(&stats);
    let rects = calculate_treemap_rects(&sorted, 800, 550, 0, 50);
    let placed: u64 = rects.iter().map(|r| r.width * r.height).sum();
    assert!(placed <= 800 * 550);
}
