use langstat::{
    calculate_treemap_rects, generate_treemap_svg, render_treemap_svg, sorted_positive_entries,
    LanguageStats,
};

fn entry(lang: &str, score: u128, repos: u32) -> (String, LanguageStats) {
    (
        String::from(lang),
        LanguageStats {
            bytes: score,
            repo_count: repos,
        },
    )
}

const HEADER: &str = "<svg width=\"800\" height=\"600\" xmlns=\"http://www.w3.org/2000/svg\">\n  <text x=\"400\" y=\"30\" text-anchor=\"middle\" font-size=\"24\" font-family=\"sans-serif\">Language Statistics</text>\n";

#[test]
fn empty_stats_render_only_the_title() {
    let stats = Vec::new();
    let svg = generate_treemap_svg(&stats);
    assert_eq!(svg, format!("{}</svg>", HEADER));
}

#[test]
fn zero_scores_render_only_the_title() {
    let stats = vec![entry("Go", 0, 3)];
    let svg = generate_treemap_svg(&stats);
    assert_eq!(svg, format!("{}</svg>", HEADER));
}

#[test]
fn two_language_document() {
    let stats = vec![entry("Go", 6000, 2), entry("Rust", 5000, 1)];
    let svg = generate_treemap_svg(&stats);
    let expected = format!(
        "{}{}{}{}{}</svg>",
        HEADER,
        "  <rect x=\"0\" y=\"50\" width=\"436\" height=\"550\" fill=\"#FF6B6B\" stroke=\"white\" stroke-width=\"1\"/>\n",
        "  <text x=\"218\" y=\"329\" text-anchor=\"middle\" font-family=\"sans-serif\" font-size=\"14\" fill=\"white\">Go (54.5%)</text>\n",
        "  <rect x=\"436\" y=\"50\" width=\"364\" height=\"250\" fill=\"#4ECDC4\" stroke=\"white\" stroke-width=\"1\"/>\n",
        "  <text x=\"618\" y=\"179\" text-anchor=\"middle\" font-family=\"sans-serif\" font-size=\"14\" fill=\"white\">Rust (45.5%)</text>\n",
    );
    assert_eq!(svg, expected);
}

#[test]
fn tiny_tiles_are_skipped_and_colors_cycle() {
    // Nine visible tiles: the ninth reuses the first palette entry.
    let stats: Vec<(String, LanguageStats)> =
        (0..9).map(|i| entry(&format!("L{}", i), 100, 1)).collect();
    let sorted = sorted_positive_entries(&stats);
    let rects = calculate_treemap_rects(&sorted, 800, 550, 0, 50);
    let svg = render_treemap_svg(&rects, 900);
    let first_color = svg.matches("#FF6B6B").count();
    assert!(first_color >= 2);

    // A sliver below the 5 x 5 floor emits no rectangle element.
    let slim = vec![entry("Huge", 1000000, 1), entry("Tiny", 1, 1)];
    let sorted = sorted_positive_entries(&slim);
    let rects = calculate_treemap_rects(&sorted, 800, 550, 0, 50);
    let svg = render_treemap_svg(&rects, 1000001);
    assert!(!svg.contains("Tiny"));
    assert_eq!(svg.matches("<rect").count(), 1);
}

#[test]
fn label_floors_apply() {
    // One dominant language and one that gets a visible rectangle that is
    // too small for a label (width above 5 but below 30 after slicing).
    let stats = vec![entry("Big", 970, 1), entry("Small", 30, 1)];
    let sorted = sorted_positive_entries(&stats);
    let rects = calculate_treemap_rects(&sorted, 800, 550, 0, 50);
    assert_eq!(rects[1].width, 24);
    let svg = render_treemap_svg(&rects, 1000);
    assert_eq!(svg.matches("<rect").count(), 2);
    assert!(svg.contains("Big (97.0%)"));
    assert!(!svg.contains("Small"));
}

