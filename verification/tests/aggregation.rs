use langstat::{
    calculate_language_stats_detailed, language_stats_records, sorted_positive_entries,
    LanguageStats, RepoLanguageSample, Repository,
};

fn repo(stars: u32, forks: u32) -> Repository {
    Repository {
        id: 1,
        name: String::from("repo"),
        full_name: String::from("owner/repo"),
        language: None,
        languages_url: String::from("https://api.example.invalid/langs"),
        stargazers_count: stars,
        forks_count: forks,
        updated_at: String::from("2024-01-01T00:00:00Z"),
    }
}

fn sample(stars: u32, forks: u32, bytes: &[(&str, u64)]) -> RepoLanguageSample {
    let map: Vec<(String, u64)> = bytes.iter().map(|(k, v)| (String::from(*k), *v)).collect();
    (repo(stars, forks), map)
}

fn lookup(stats: &[(String, LanguageStats)], lang: &str) -> Option<LanguageStats> {
    stats.iter().find(|(k, _)| k == lang).map(|(_, v)| *v)
}

#[test]
fn weighted_two_sample_example() {
    let samples = vec![
        sample(0, 0, &[("Go", 100)]),
        sample(9, 0, &[("Rust", 50), ("Go", 50)]),
    ];
    let stats = calculate_language_stats_detailed(&samples);
    assert_eq!(stats.len(), 2);
    let go = lookup(&stats, "Go").unwrap();
    assert_eq!(go.bytes, 6000);
    assert_eq!(go.repo_count, 2);
    let rust = lookup(&stats, "Rust").unwrap();
    assert_eq!(rust.bytes, 5000);
    assert_eq!(rust.repo_count, 1);
}

#[test]
fn zero_total_sample_contributes_nothing() {
    let samples = vec![
        sample(100, 100, &[("Go", 0)]),
        sample(0, 0, &[("Rust", 10)]),
    ];
    let stats = calculate_language_stats_detailed(&samples);
    assert_eq!(stats.len(), 1);
    assert!(lookup(&stats, "Go").is_none());
    let rust = lookup(&stats, "Rust").unwrap();
    assert_eq!(rust.bytes, 1000);
    assert_eq!(rust.repo_count, 1);
}

#[test]
fn zero_byte_entry_in_nonempty_sample_still_counts() {
    // An entry listed with zero bytes in a sample that has content elsewhere
    // gets a zero score but still counts as a contributing repository.
    let samples = vec![sample(0, 0, &[("Go", 0), ("Rust", 10)])];
    let stats = calculate_language_stats_detailed(&samples);
    let go = lookup(&stats, "Go").unwrap();
    assert_eq!(go.bytes, 0);
    assert_eq!(go.repo_count, 1);
}

#[test]
fn empty_sample_sequence_gives_empty_result() {
    let samples: Vec<RepoLanguageSample> = Vec::new();
    let stats = calculate_language_stats_detailed(&samples);
    assert!(stats.is_empty());
}

#[test]
fn aggregation_is_order_independent() {
    let a = vec![
        sample(0, 0, &[("Go", 100)]),
        sample(9, 0, &[("Rust", 50), ("Go", 50)]),
        sample(3, 4, &[("C", 25), ("Go", 75)]),
    ];
    let b = vec![a[2].clone(), a[0].clone(), a[1].clone()];
    let sa = calculate_language_stats_detailed(&a);
    let sb = calculate_language_stats_detailed(&b);
    assert_eq!(sa.len(), sb.len());
    for (lang, v) in &sa {
        let w = lookup(&sb, lang).unwrap();
        assert_eq!(v.bytes, w.bytes);
        assert_eq!(v.repo_count, w.repo_count);
    }
}

#[test]
fn tiny_shares_are_not_erased() {
    // "A" holds 1 of 1001 bytes with no stars or forks: the exact rational
    // contribution is 1000/1001. Rounding up keeps the language at score 1
    // instead of erasing it, so it still receives a treemap tile.
    let samples = vec![sample(0, 0, &[("A", 1), ("B", 1000)])];
    let stats = calculate_language_stats_detailed(&samples);
    let a = lookup(&stats, "A").unwrap();
    assert_eq!(a.bytes, 1);
    assert_eq!(a.repo_count, 1);
    let b = lookup(&stats, "B").unwrap();
    assert_eq!(b.bytes, 1000);
    let tiles = sorted_positive_entries(&stats);
    assert_eq!(tiles.len(), 2);
    assert_eq!(tiles[1].0, "A");
}

#[test]
fn popularity_weight_offsets_apply() {
    // (stars + 1) * (forks + 1) = 4 * 3 = 12, whole sample is one language.
    let samples = vec![sample(3, 2, &[("Zig", 7)])];
    let stats = calculate_language_stats_detailed(&samples);
    let zig = lookup(&stats, "Zig").unwrap();
    assert_eq!(zig.bytes, 12000);
    assert_eq!(zig.repo_count, 1);
}

#[test]
fn share_is_proportional_to_bytes() {
    let samples = vec![sample(0, 0, &[("A", 30), ("B", 70)])];
    let stats = calculate_language_stats_detailed(&samples);
    assert_eq!(lookup(&stats, "A").unwrap().bytes, 300);
    assert_eq!(lookup(&stats, "B").unwrap().bytes, 700);
}

#[test]
fn extreme_values_aggregate_exactly() {
    // The largest byte count, star count and fork count the input types
    // allow: the score is (stars+1) * (forks+1) * 1000 exactly.
    let samples = vec![sample(u32::MAX, u32::MAX, &[("Big", u64::MAX)])];
    let stats = calculate_language_stats_detailed(&samples);
    let big = lookup(&stats, "Big").unwrap();
    assert_eq!(big.bytes, 4294967296u128 * 4294967296u128 * 1000);
    assert_eq!(big.repo_count, 1);

    // The record set prints the exact decimal digits of the wide score.
    let rows = language_stats_records(&stats);
    let big_row = rows.iter().find(|r| r[0] == "Big").unwrap();
    assert_eq!(big_row[1], "18446744073709551616000");
    assert_eq!(big_row[2], "1");
}

#[test]
fn records_have_header_and_one_row_per_language() {
    let samples = vec![
        sample(0, 0, &[("Go", 100)]),
        sample(9, 0, &[("Rust", 50), ("Go", 50)]),
    ];
    let stats = calculate_language_stats_detailed(&samples);
    let rows = language_stats_records(&stats);
    assert_eq!(rows.len(), 3);
    assert_eq!(rows[0], vec!["language", "bytes", "repo_count"]);
    let go_row = rows.iter().find(|r| r[0] == "Go").unwrap();
    assert_eq!(go_row[1], "6000");
    assert_eq!(go_row[2], "2");
    let rust_row = rows.iter().find(|r| r[0] == "Rust").unwrap();
    assert_eq!(rust_row[1], "5000");
    assert_eq!(rust_row[2], "1");
}
