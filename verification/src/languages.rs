use crate::github::Repository;
use vstd::arithmetic::div_mod::{
    lemma_basic_div, lemma_div_by_self, lemma_div_is_ordered, lemma_div_multiples_vanish,
    lemma_div_pos_is_pos, lemma_fundamental_div_mod, lemma_hoist_over_denominator,
};
use vstd::arithmetic::mul::{lemma_mul_inequality, lemma_mul_upper_bound};
use vstd::prelude::*;
use vstd::string::StringExecFns;

verus! {

/// Aggregated prominence of one language across all sampled repositories.
///
/// `bytes` is the weighted, scaled score (the historical column name is kept
/// for output compatibility; it is not a byte count) and `repo_count` the
/// number of contributing repositories. Scores are exact integers here:
/// every per-repository contribution is the rational
/// `bytes * weight * 1000 / totalBytes` rounded up, so no listed language is
/// erased by rounding.
#[derive(Clone, Copy, Debug, PartialEq, Eq, Structural)]
pub struct LanguageStats {
    pub bytes: u128,
    pub repo_count: u32,
}

/// One input unit: a repository's metadata plus its raw language -> byte-count
/// mapping, held as a key-unique association list.
pub type RepoLanguageSample = (Repository, Vec<(String, u64)>);

/// Sum of all byte counts of one sample's language mapping.
pub open spec fn sample_total(m: Seq<(String, u64)>) -> int
    decreases m.len(),
{
    if m.len() == 0 {
        0
    } else {
        sample_total(m.drop_last()) + m.last().1
    }
}

/// The language keys of a mapping are pairwise distinct.
pub open spec fn lang_keys_unique(m: Seq<(String, u64)>) -> bool {
    forall|i: int, j: int| 0 <= i < j < m.len() ==> m[i].0@ != m[j].0@
}

/// The mapping has an entry for `lang`.
pub open spec fn has_language(m: Seq<(String, u64)>, lang: Seq<char>) -> bool {
    exists|i: int| 0 <= i < m.len() && m[i].0@ == lang
}

/// The byte count recorded for `lang` (the last entry decides; under
/// `lang_keys_unique` there is at most one).
pub open spec fn language_bytes(m: Seq<(String, u64)>, lang: Seq<char>) -> int
    decreases m.len(),
{
    if m.len() == 0 {
        0
    } else if m.last().0@ == lang {
        m.last().1 as int
    } else {
        language_bytes(m.drop_last(), lang)
    }
}

/// Popularity weight of a repository; the `+ 1` offsets keep the weight
/// strictly positive even for unstarred, unforked repositories.
pub open spec fn popularity_weight(r: Repository) -> int {
    (r.stargazers_count + 1) * (r.forks_count + 1)
}

/// A sample carries signal for `lang`: it has content at all and mentions the
/// language. Samples whose total byte count is zero are discarded entirely.
pub open spec fn sample_mentions(s: RepoLanguageSample, lang: Seq<char>) -> bool {
    sample_total(s.1@) > 0 && has_language(s.1@, lang)
}

/// The exact score one sample adds for `lang`:
/// `bytes * popularityWeight * 1000 / totalBytes`, rounded up, so a language
/// listed with any bytes at all in a contentful sample keeps a strictly
/// positive score instead of being erased by rounding.
pub open spec fn score_contribution(s: RepoLanguageSample, lang: Seq<char>) -> int {
    if sample_mentions(s, lang) {
        (language_bytes(s.1@, lang) * popularity_weight(s.0) * 1000 + sample_total(s.1@) - 1)
            / sample_total(s.1@)
    } else {
        0
    }
}

/// The repository-count one sample adds for `lang`.
pub open spec fn count_contribution(s: RepoLanguageSample, lang: Seq<char>) -> int {
    if sample_mentions(s, lang) {
        1
    } else {
        0
    }
}

/// Total score of `lang` over a sample sequence.
pub open spec fn language_score(samples: Seq<RepoLanguageSample>, lang: Seq<char>) -> int
    decreases samples.len(),
{
    if samples.len() == 0 {
        0
    } else {
        language_score(samples.drop_last(), lang) + score_contribution(samples.last(), lang)
    }
}

/// Number of samples that carry signal for `lang`.
pub open spec fn language_repo_count(samples: Seq<RepoLanguageSample>, lang: Seq<char>) -> int
    decreases samples.len(),
{
    if samples.len() == 0 {
        0
    } else {
        language_repo_count(samples.drop_last(), lang) + count_contribution(samples.last(), lang)
    }
}

/// Some sample in the sequence carries signal for `lang`.
pub open spec fn appears(samples: Seq<RepoLanguageSample>, lang: Seq<char>) -> bool {
    exists|i: int| 0 <= i < samples.len() && sample_mentions(samples[i], lang)
}

/// A well-formed sample: key-unique mapping of a bounded size.
pub open spec fn valid_sample(s: RepoLanguageSample) -> bool {
    &&& lang_keys_unique(s.1@)
    &&& s.1@.len() <= 0xFFFF_FFFF
}

/// The sequence of strings contains `lang`.
pub open spec fn string_seq_contains(v: Seq<String>, lang: Seq<char>) -> bool {
    exists|i: int| 0 <= i < v.len() && v[i]@ == lang
}

proof fn lemma_sample_total_nonneg(m: Seq<(String, u64)>)
    ensures
        sample_total(m) >= 0,
    decreases m.len(),
{
    if m.len() > 0 {
        lemma_sample_total_nonneg(m.drop_last());
    }
}

proof fn lemma_sample_total_bound(m: Seq<(String, u64)>)
    ensures
        sample_total(m) <= m.len() * 0xFFFF_FFFF_FFFF_FFFF,
    decreases m.len(),
{
    if m.len() > 0 {
        lemma_sample_total_bound(m.drop_last());
        assert((m.len() - 1) * 0xFFFF_FFFF_FFFF_FFFF + 0xFFFF_FFFF_FFFF_FFFF == m.len()
            * 0xFFFF_FFFF_FFFF_FFFF) by (nonlinear_arith);
    }
}

proof fn lemma_entry_le_total(m: Seq<(String, u64)>, i: int)
    requires
        0 <= i < m.len(),
    ensures
        m[i].1 <= sample_total(m),
    decreases m.len(),
{
    if i == m.len() - 1 {
        lemma_sample_total_nonneg(m.drop_last());
    } else {
        lemma_entry_le_total(m.drop_last(), i);
        assert(m.drop_last()[i] == m[i]);
    }
}

proof fn lemma_language_bytes_at(m: Seq<(String, u64)>, i: int)
    requires
        lang_keys_unique(m),
        0 <= i < m.len(),
    ensures
        language_bytes(m, m[i].0@) == m[i].1,
    decreases m.len(),
{
    if i < m.len() - 1 {
        assert(m.last().0@ != m[i].0@);
        lemma_language_bytes_at(m.drop_last(), i);
        assert(m.drop_last()[i] == m[i]);
    }
}

/// Per-sample contribution bounds: a contribution never exceeds
/// `popularityWeight * 1000`, which itself fits in `2^64 * 1000`, and a
/// language listed with at least one byte contributes at least 1.
proof fn lemma_contribution_bounds(s: RepoLanguageSample, lang: Seq<char>)
    requires
        valid_sample(s),
    ensures
        0 <= score_contribution(s, lang) <= 18446744073709551616000,
        0 <= count_contribution(s, lang) <= 1,
        sample_mentions(s, lang) && language_bytes(s.1@, lang) >= 1 ==> score_contribution(s, lang)
            >= 1,
{
    if sample_mentions(s, lang) {
        let m = s.1@;
        let total = sample_total(m);
        let b = language_bytes(m, lang);
        let w = popularity_weight(s.0);
        let i = choose|i: int| 0 <= i < m.len() && m[i].0@ == lang;
        lemma_language_bytes_at(m, i);
        lemma_entry_le_total(m, i);
        assert(0 <= b <= total);
        assert(1 <= w <= 18446744073709551616) by (nonlinear_arith)
            requires
                w == (s.0.stargazers_count + 1) * (s.0.forks_count + 1),
                s.0.stargazers_count <= 0xFFFF_FFFF,
                s.0.forks_count <= 0xFFFF_FFFF,
        ;
        let n = b * w * 1000;
        assert(n >= 0) by (nonlinear_arith)
            requires
                n == b * w * 1000,
                b >= 0,
                w >= 1,
        ;
        lemma_div_pos_is_pos(n + total - 1, total);
        lemma_mul_inequality(b, total, w * 1000);
        assert(b * (w * 1000) == n) by (nonlinear_arith)
            requires
                n == b * w * 1000,
        ;
        lemma_div_is_ordered(n + total - 1, (w * 1000) * total + (total - 1), total);
        lemma_hoist_over_denominator(total - 1, w * 1000, total as nat);
        lemma_basic_div(total - 1, total);
        assert(score_contribution(s, lang) <= w * 1000);
        assert(w * 1000 <= 18446744073709551616000);
        if b >= 1 {
            assert(n >= 1000) by (nonlinear_arith)
                requires
                    n == b * w * 1000,
                    b >= 1,
                    w >= 1,
            ;
            lemma_div_is_ordered(total, n + total - 1, total);
            lemma_div_by_self(total);
        }
    }
}

/// The aggregated result has an entry for `lang`.
pub open spec fn stats_has_language(res: Seq<(String, LanguageStats)>, lang: Seq<char>) -> bool {
    exists|i: int| 0 <= i < res.len() && res[i].0@ == lang
}

/// A repository count is positive exactly when some sample carries signal
/// for the language.
pub proof fn lemma_repo_count_pos_iff_appears(samples: Seq<RepoLanguageSample>, lang: Seq<char>)
    ensures
        language_repo_count(samples, lang) >= 0,
        language_repo_count(samples, lang) > 0 <==> appears(samples, lang),
    decreases samples.len(),
{
    if samples.len() > 0 {
        let rest = samples.drop_last();
        lemma_repo_count_pos_iff_appears(rest, lang);
        if appears(rest, lang) {
            let i = choose|i: int| 0 <= i < rest.len() && sample_mentions(rest[i], lang);
            assert(samples[i] == rest[i]);
            assert(appears(samples, lang));
        }
        if sample_mentions(samples.last(), lang) {
            assert(sample_mentions(samples[samples.len() - 1], lang));
            assert(appears(samples, lang));
        }
        if appears(samples, lang) && !sample_mentions(samples.last(), lang) {
            let i = choose|i: int| 0 <= i < samples.len() && sample_mentions(samples[i], lang);
            assert(i < samples.len() - 1);
            assert(rest[i] == samples[i]);
            assert(appears(rest, lang));
        }
    }
}

proof fn lemma_appears_extend(samples: Seq<RepoLanguageSample>, j: int, lang: Seq<char>)
    requires
        0 <= j < samples.len(),
    ensures
        appears(samples.take(j + 1), lang) <==> (appears(samples.take(j), lang) || sample_mentions(
            samples[j],
            lang,
        )),
{
    let pre = samples.take(j);
    let cur = samples.take(j + 1);
    if appears(pre, lang) {
        let i = choose|i: int| 0 <= i < pre.len() && sample_mentions(pre[i], lang);
        assert(cur[i] == pre[i]);
        assert(appears(cur, lang));
    }
    if sample_mentions(samples[j], lang) {
        assert(cur[j] == samples[j]);
        assert(appears(cur, lang));
    }
    if appears(cur, lang) {
        let i = choose|i: int| 0 <= i < cur.len() && sample_mentions(cur[i], lang);
        if i < j {
            assert(pre[i] == cur[i]);
            assert(appears(pre, lang));
        } else {
            assert(cur[i] == samples[j]);
        }
    }
}

/// Score and count bounds over a whole sequence of valid samples.
proof fn lemma_score_bounds(samples: Seq<RepoLanguageSample>, lang: Seq<char>)
    requires
        forall|i: int| 0 <= i < samples.len() ==> valid_sample(#[trigger] samples[i]),
    ensures
        0 <= language_score(samples, lang) <= samples.len() * 18446744073709551616000,
        0 <= language_repo_count(samples, lang) <= samples.len(),
    decreases samples.len(),
{
    if samples.len() > 0 {
        let rest = samples.drop_last();
        assert(forall|i: int| 0 <= i < rest.len() ==> valid_sample(#[trigger] rest[i]));
        lemma_score_bounds(rest, lang);
        lemma_contribution_bounds(samples.last(), lang);
        assert((samples.len() - 1) * 18446744073709551616000 + 18446744073709551616000
            == samples.len() * 18446744073709551616000) by (nonlinear_arith);
    }
}

proof fn lemma_score_remove(samples: Seq<RepoLanguageSample>, i: int, lang: Seq<char>)
    requires
        0 <= i < samples.len(),
    ensures
        language_score(samples.remove(i), lang) == language_score(samples, lang)
            - score_contribution(samples[i], lang),
        language_repo_count(samples.remove(i), lang) == language_repo_count(samples, lang)
            - count_contribution(samples[i], lang),
    decreases samples.len(),
{
    if i == samples.len() - 1 {
        assert(samples.remove(i) =~= samples.drop_last());
    } else {
        assert(samples.remove(i).drop_last() =~= samples.drop_last().remove(i));
        assert(samples.remove(i).last() == samples.last());
        lemma_score_remove(samples.drop_last(), i, lang);
        assert(samples.drop_last()[i] == samples[i]);
    }
}

/// Aggregation is order-independent: sample sequences that are permutations
/// of one another give every language the same score and the same
/// repository count.
pub proof fn lemma_aggregation_order_independent(
    s1: Seq<RepoLanguageSample>,
    s2: Seq<RepoLanguageSample>,
    lang: Seq<char>,
)
    requires
        s1.to_multiset() == s2.to_multiset(),
    ensures
        language_score(s1, lang) == language_score(s2, lang),
        language_repo_count(s1, lang) == language_repo_count(s2, lang),
    decreases s1.len(),
{
    s1.to_multiset_ensures();
    s2.to_multiset_ensures();
    if s1.len() == 0 {
        assert(s2.len() == 0);
    } else {
        let x = s1.last();
        let d1 = s1.drop_last();
        assert(s1.remove(s1.len() - 1) =~= d1);
        assert(s1[s1.len() - 1] == x);
        assert(s1.contains(x));
        assert(s2.to_multiset().count(x) > 0);
        assert(s2.contains(x));
        let j = choose|j: int| 0 <= j < s2.len() && s2[j] == x;
        let d2 = s2.remove(j);
        assert(d1.to_multiset() == d2.to_multiset());
        lemma_aggregation_order_independent(d1, d2, lang);
        lemma_score_remove(s2, j, lang);
    }
}

/// Rounding up never erases a language: one listed with at least one byte in
/// a sample that has content at all keeps a strictly positive aggregated
/// score.
pub proof fn lemma_listed_language_scores(
    samples: Seq<RepoLanguageSample>,
    i: int,
    lang: Seq<char>,
)
    requires
        forall|k: int| 0 <= k < samples.len() ==> valid_sample(#[trigger] samples[k]),
        0 <= i < samples.len(),
        sample_mentions(samples[i], lang),
        language_bytes(samples[i].1@, lang) >= 1,
    ensures
        language_score(samples, lang) >= 1,
{
    lemma_score_remove(samples, i, lang);
    lemma_contribution_bounds(samples[i], lang);
    let rest = samples.remove(i);
    assert(forall|k: int| 0 <= k < rest.len() ==> valid_sample(#[trigger] rest[k])) by {
        assert forall|k: int| 0 <= k < rest.len() implies valid_sample(#[trigger] rest[k]) by {
            if k < i {
                assert(rest[k] == samples[k]);
            } else {
                assert(rest[k] == samples[k + 1]);
            }
        }
    }
    lemma_score_bounds(rest, lang);
}

/// A sample whose language mapping sums to zero bytes contributes nothing:
/// removing it changes no language's score or repository count.
pub proof fn lemma_zero_total_sample_inert(
    samples: Seq<RepoLanguageSample>,
    i: int,
    lang: Seq<char>,
)
    requires
        0 <= i < samples.len(),
        sample_total(samples[i].1@) == 0,
    ensures
        language_score(samples.remove(i), lang) == language_score(samples, lang),
        language_repo_count(samples.remove(i), lang) == language_repo_count(samples, lang),
{
    lemma_score_remove(samples, i, lang);
}

proof fn lemma_term_value(b: int, w: int, total: int, q: int, r: int)
    requires
        total > 0,
        b >= 0,
        w >= 1,
        q == (b * w) / total,
        r == (b * w) % total,
    ensures
        q * 1000 + (r * 1000 + total - 1) / total == (b * w * 1000 + total - 1) / total,
{
    lemma_fundamental_div_mod(b * w, total);
    assert(b * w * 1000 + total - 1 == (r * 1000 + total - 1) + (q * 1000) * total)
        by (nonlinear_arith)
        requires
            b * w == total * q + r,
    ;
    lemma_hoist_over_denominator(r * 1000 + total - 1, q * 1000, total as nat);
}

fn contains_string(v: &Vec<String>, s: &String) -> (r: bool)
    ensures
        r == string_seq_contains(v@, s@),
{
    let mut k: usize = 0;
    while k < v.len()
        invariant
            k <= v@.len(),
            forall|i: int| 0 <= i < k ==> v@[i]@ != s@,
        decreases v@.len() - k,
    {
        if v[k] == *s {
            return true;
        }
        k += 1;
    }
    false
}

/// Scans one sample mapping: returns its total byte count together with the
/// byte count recorded for `lang`, if any.
fn scan_mapping(m: &Vec<(String, u64)>, lang: &String) -> (r: (u128, Option<u64>))
    requires
        lang_keys_unique(m@),
    ensures
        r.0 == sample_total(m@),
        r.1 is Some <==> has_language(m@, lang@),
        has_language(m@, lang@) ==> r.1 == Some((language_bytes(m@, lang@) as u64)),
{
    let mut total: u128 = 0;
    let mut found: Option<u64> = None;
    let mut k: usize = 0;
    while k < m.len()
        invariant
            k <= m@.len(),
            lang_keys_unique(m@),
            total == sample_total(m@.take(k as int)),
            total <= k * 0xFFFF_FFFF_FFFF_FFFF,
            found is Some <==> has_language(m@.take(k as int), lang@),
            found is Some ==> exists|i: int|
                0 <= i < k && m@[i].0@ == lang@ && found == Some(m@[i].1),
        decreases m@.len() - k,
    {
        proof {
            assert(m@.take(k as int + 1).drop_last() =~= m@.take(k as int));
            assert(m@.take(k as int + 1).last() == m@[k as int]);
            assert(k * 0xFFFF_FFFF_FFFF_FFFF + 0xFFFF_FFFF_FFFF_FFFF == (k + 1)
                * 0xFFFF_FFFF_FFFF_FFFF) by (nonlinear_arith);
            assert((k + 1) * 0xFFFF_FFFF_FFFF_FFFF <= 0xFFFF_FFFF_FFFF_FFFF
                * 0xFFFF_FFFF_FFFF_FFFF) by (nonlinear_arith)
                requires
                    k + 1 <= 0xFFFF_FFFF_FFFF_FFFF,
            ;
        }
        let ghost found0 = found;
        let ghost pre = m@.take(k as int);
        total = total + (m[k].1 as u128);
        if m[k].0 == *lang {
            found = Some(m[k].1);
        }
        proof {
            let cur = m@.take(k as int + 1);
            if found is Some {
                if m@[k as int].0@ == lang@ {
                    assert(cur[k as int] == m@[k as int]);
                    assert(has_language(cur, lang@));
                } else {
                    let i = choose|i: int|
                        0 <= i < k && m@[i].0@ == lang@ && found0 == Some(m@[i].1);
                    assert(cur[i] == m@[i]);
                    assert(has_language(cur, lang@));
                }
            }
            if has_language(cur, lang@) && found is None {
                let i = choose|i: int| 0 <= i < cur.len() && cur[i].0@ == lang@;
                assert(cur[i] == m@[i]);
                if i < k {
                    assert(pre[i] == m@[i]);
                    assert(has_language(pre, lang@));
                }
            }
        }
        k += 1;
    }
    proof {
        assert(m@.take(m@.len() as int) =~= m@);
        if found is Some {
            let i = choose|i: int| 0 <= i < m@.len() && m@[i].0@ == lang@ && found == Some(m@[i].1);
            lemma_language_bytes_at(m@, i);
        }
    }
    (total, found)
}

/// Weighted aggregation across repositories.
///
/// Every sample whose language mapping sums to zero bytes is discarded; for
/// each other sample, each listed language receives
/// `bytes * (stars + 1) * (forks + 1) * 1000 / totalBytes` (rounded up, so a
/// listed language with any bytes keeps a positive score)
/// added to its score, and one more contributing repository. The result maps
/// each language that received anything to its totals; entry order is
/// unspecified (callers treat the result as a map).
pub fn calculate_language_stats_detailed(repo_languages: &Vec<RepoLanguageSample>) -> (res: Vec<
    (String, LanguageStats),
>)
    requires
        repo_languages@.len() <= 0xFFFF_FFFF,
        forall|i: int| 0 <= i < repo_languages@.len() ==> valid_sample(#[trigger] repo_languages@[i]),
    ensures
        forall|i: int, j: int| 0 <= i < j < res@.len() ==> res@[i].0@ != res@[j].0@,
        forall|i: int|
            0 <= i < res@.len() ==> (#[trigger] res@[i]).1.bytes == language_score(
                repo_languages@,
                res@[i].0@,
            ),
        forall|i: int|
            0 <= i < res@.len() ==> (#[trigger] res@[i]).1.repo_count == language_repo_count(
                repo_languages@,
                res@[i].0@,
            ),
        forall|lang: Seq<char>|
            #[trigger] stats_has_language(res@, lang) <==> appears(repo_languages@, lang),
{
    let n = repo_languages.len();
    let ghost samples = repo_languages@;

    // First pass: the set of languages that receive any signal, in first
    // appearance order.
    let mut langs: Vec<String> = Vec::new();
    let mut j: usize = 0;
    while j < n
        invariant
            j <= n,
            n == samples.len(),
            samples == repo_languages@,
            samples.len() <= 0xFFFF_FFFF,
            forall|i: int| 0 <= i < samples.len() ==> valid_sample(#[trigger] samples[i]),
            forall|a: int, b: int| 0 <= a < b < langs@.len() ==> langs@[a]@ != langs@[b]@,
            forall|lang: Seq<char>|
                #[trigger] string_seq_contains(langs@, lang) <==> appears(
                    samples.take(j as int),
                    lang,
                ),
        decreases n - j,
    {
        let sample = &repo_languages[j];
        let (total, _) = scan_mapping(&sample.1, &String::new());
        if total > 0 {
            let m = &sample.1;
            let mut k: usize = 0;
            while k < m.len()
                invariant
                    k <= m@.len(),
                    m@ == samples[j as int].1@,
                    0 <= j < samples.len(),
                    sample_total(m@) > 0,
                    forall|a: int, b: int| 0 <= a < b < langs@.len() ==> langs@[a]@ != langs@[b]@,
                    forall|lang: Seq<char>|
                        #[trigger] string_seq_contains(langs@, lang) <==> (appears(
                            samples.take(j as int),
                            lang,
                        ) || has_language(m@.take(k as int), lang)),
                decreases m@.len() - k,
            {
                let ghost langs0 = langs@;
                if !contains_string(&langs, &m[k].0) {
                    langs.push(m[k].0.clone());
                }
                proof {
                    let cur = m@.take(k as int + 1);
                    let prek = m@.take(k as int);
                    assert(cur[k as int] == m@[k as int]);
                    assert forall|lang: Seq<char>| #[trigger]
                        string_seq_contains(langs@, lang) implies (appears(
                        samples.take(j as int),
                        lang,
                    ) || has_language(cur, lang)) by {
                        let i = choose|i: int| 0 <= i < langs@.len() && langs@[i]@ == lang;
                        if i < langs0.len() {
                            assert(langs0[i]@ == lang);
                            assert(string_seq_contains(langs0, lang));
                            if has_language(prek, lang) {
                                let e = choose|e: int| 0 <= e < prek.len() && prek[e].0@ == lang;
                                assert(cur[e] == prek[e]);
                                assert(has_language(cur, lang));
                            }
                        } else {
                            assert(langs@[i]@ == m@[k as int].0@);
                            assert(has_language(cur, lang));
                        }
                    }
                    assert forall|lang: Seq<char>|
                        (appears(samples.take(j as int), lang) || has_language(
                            cur,
                            lang,
                        )) implies #[trigger] string_seq_contains(langs@, lang) by {
                        if has_language(cur, lang) {
                            let e = choose|e: int| 0 <= e < cur.len() && cur[e].0@ == lang;
                            if e < k {
                                assert(prek[e] == cur[e]);
                                assert(has_language(prek, lang));
                            } else {
                                assert(lang == m@[k as int].0@);
                            }
                        }
                        if string_seq_contains(langs0, lang) {
                            let i = choose|i: int| 0 <= i < langs0.len() && langs0[i]@ == lang;
                            assert(langs@[i]@ == lang);
                        } else {
                            assert(lang == m@[k as int].0@ && langs@.last()@ == m@[k as int].0@);
                        }
                    }
                }
                k += 1;
            }
            proof {
                assert(m@.take(m@.len() as int) =~= m@);
            }
        }
        proof {
            assert forall|lang: Seq<char>| #[trigger]
                string_seq_contains(langs@, lang) <==> appears(
                samples.take(j as int + 1),
                lang,
            ) by {
                lemma_appears_extend(samples, j as int, lang);
            }
        }
        j += 1;
    }
    proof {
        assert(samples.take(samples.len() as int) =~= samples);
    }

    // Second pass: one exact accumulation per language.
    let mut res: Vec<(String, LanguageStats)> = Vec::new();
    let mut li: usize = 0;
    while li < langs.len()
        invariant
            li <= langs@.len(),
            res@.len() == li,
            n == samples.len(),
            samples == repo_languages@,
            samples.len() <= 0xFFFF_FFFF,
            forall|i: int| 0 <= i < samples.len() ==> valid_sample(#[trigger] samples[i]),
            forall|a: int, b: int| 0 <= a < b < langs@.len() ==> langs@[a]@ != langs@[b]@,
            forall|lang: Seq<char>|
                #[trigger] string_seq_contains(langs@, lang) <==> appears(samples, lang),
            forall|i: int| 0 <= i < li ==> (#[trigger] res@[i]).0@ == langs@[i]@,
            forall|i: int|
                0 <= i < li ==> (#[trigger] res@[i]).1.bytes == language_score(
                    samples,
                    res@[i].0@,
                ),
            forall|i: int|
                0 <= i < li ==> (#[trigger] res@[i]).1.repo_count == language_repo_count(
                    samples,
                    res@[i].0@,
                ),
        decreases langs@.len() - li,
    {
        let lang = &langs[li];
        let mut score: u128 = 0;
        let mut cnt: u32 = 0;
        let mut sj: usize = 0;
        while sj < n
            invariant
                sj <= n,
                n == samples.len(),
                samples == repo_languages@,
                samples.len() <= 0xFFFF_FFFF,
                forall|i: int| 0 <= i < samples.len() ==> valid_sample(#[trigger] samples[i]),
                lang@ == langs@[li as int]@,
                score == language_score(samples.take(sj as int), lang@),
                cnt == language_repo_count(samples.take(sj as int), lang@),
            decreases n - sj,
        {
            let sample = &repo_languages[sj];
            proof {
                assert(samples.take(sj as int + 1).drop_last() =~= samples.take(sj as int));
                assert(samples.take(sj as int + 1).last() == samples[sj as int]);
                lemma_score_bounds(samples.take(sj as int), lang@);
                lemma_contribution_bounds(samples[sj as int], lang@);
                assert(sj * 18446744073709551616000 + 18446744073709551616000 == (sj + 1)
                    * 18446744073709551616000) by (nonlinear_arith);
                assert((sj + 1) * 18446744073709551616000 <= 0x1_0000_0000
                    * 18446744073709551616000) by (nonlinear_arith)
                    requires
                        sj + 1 <= 0x1_0000_0000,
                ;
                assert(samples.take(sj as int).len() == sj);
                lemma_repo_count_pos_iff_appears(samples.take(sj as int), lang@);
            }
            let (total, found) = scan_mapping(&sample.1, lang);
            if total > 0 {
                match found {
                    Some(b) => {
                        let ghost s = samples[sj as int];
                        let ghost bi = language_bytes(s.1@, lang@);
                        let ghost wi = popularity_weight(s.0);
                        proof {
                            let i = choose|i: int| 0 <= i < s.1@.len() && s.1@[i].0@ == lang@;
                            lemma_language_bytes_at(s.1@, i);
                            lemma_entry_le_total(s.1@, i);
                            lemma_sample_total_bound(s.1@);
                            assert(sample_total(s.1@) <= 0xFFFF_FFFF * 0xFFFF_FFFF_FFFF_FFFF) by (nonlinear_arith)
                                requires
                                    sample_total(s.1@) <= s.1@.len() * 0xFFFF_FFFF_FFFF_FFFF,
                                    s.1@.len() <= 0xFFFF_FFFF,
                            ;
                            lemma_mul_upper_bound(
                                sample.0.stargazers_count as int + 1,
                                0x1_0000_0000,
                                sample.0.forks_count as int + 1,
                                0x1_0000_0000,
                            );
                            assert((sample.0.stargazers_count as int + 1) * (
                            sample.0.forks_count as int + 1) >= 1) by (nonlinear_arith);
                        }
                        let w: u128 = (sample.0.stargazers_count as u128 + 1)
                            * (sample.0.forks_count as u128 + 1);
                        proof {
                            lemma_mul_upper_bound(
                                b as int,
                                0xFFFF_FFFF_FFFF_FFFF,
                                w as int,
                                0x1_0000_0000_0000_0000,
                            );
                        }
                        let t: u128 = (b as u128) * w;
                        let q: u128 = t / total;
                        let r: u128 = t % total;
                        proof {
                            lemma_mul_inequality(b as int, total as int, w as int);
                            assert((b as int) * (w as int) <= (total as int) * (w as int));
                            lemma_div_is_ordered(t as int, (total as int) * (w as int), total as int);
                            lemma_div_multiples_vanish(w as int, total as int);
                            assert((total as int) * (w as int) == (w as int) * (total as int))
                                by (nonlinear_arith);
                            assert(q <= w);
                            lemma_fundamental_div_mod(t as int, total as int);
                            assert(r < total);
                            lemma_div_pos_is_pos(r as int * 1000 + total as int - 1, total as int);
                            lemma_div_is_ordered(
                                r as int * 1000 + total as int - 1,
                                (total as int) * 1000 + (total as int - 1),
                                total as int,
                            );
                            lemma_hoist_over_denominator(total as int - 1, 1000, total as nat);
                            lemma_basic_div(total as int - 1, total as int);
                            lemma_div_multiples_vanish(1000, total as int);
                            assert((total as int) * 1000 == 1000 * (total as int))
                                by (nonlinear_arith);
                            assert(r as int * 1000 <= (total as int) * 1000) by (nonlinear_arith)
                                requires
                                    0 <= r as int <= total as int,
                            ;
                        }
                        let term: u128 = q * 1000 + (r * 1000 + total - 1) / total;
                        proof {
                            lemma_term_value(b as int, w as int, total as int, q as int, r as int);
                            assert(wi == w as int);
                            assert(bi == b as int);
                            assert(term == score_contribution(s, lang@));
                        }
                        score = score + term;
                        cnt = cnt + 1;
                    },
                    None => {},
                }
            }
            sj += 1;
        }
        proof {
            assert(samples.take(samples.len() as int) =~= samples);
        }
        res.push((lang.clone(), LanguageStats { bytes: score, repo_count: cnt }));
        li += 1;
    }
    proof {
        assert forall|lang: Seq<char>| #[trigger]
            stats_has_language(res@, lang) <==> appears(samples, lang) by {
            if stats_has_language(res@, lang) {
                let i = choose|i: int| 0 <= i < res@.len() && res@[i].0@ == lang;
                assert(langs@[i]@ == lang);
                assert(string_seq_contains(langs@, lang));
            }
            if appears(samples, lang) {
                assert(string_seq_contains(langs@, lang));
                let i = choose|i: int| 0 <= i < langs@.len() && langs@[i]@ == lang;
                assert(res@[i].0@ == lang);
            }
        }
    }
    res
}

/// The tabular record set for persistence: one header row, then one
/// `language, bytes, repo_count` row per aggregated entry. The `bytes`
/// column holds the score; its historical name is preserved for output
/// compatibility.
pub fn language_stats_records(stats: &Vec<(String, LanguageStats)>) -> (rows: Vec<Vec<String>>)
    ensures
        rows@.len() == stats@.len() + 1,
        rows@[0]@.len() == 3,
        rows@[0]@[0]@ == "language"@,
        rows@[0]@[1]@ == "bytes"@,
        rows@[0]@[2]@ == "repo_count"@,
        forall|i: int| 0 <= i < stats@.len() ==> (#[trigger] rows@[i + 1])@.len() == 3,
        forall|i: int| 0 <= i < stats@.len() ==> (#[trigger] rows@[i + 1])@[0]@ == stats@[i].0@,
        forall|i: int|
            0 <= i < stats@.len() ==> (#[trigger] rows@[i + 1])@[1]@ == crate::text::dec_str(
                stats@[i].1.bytes as nat,
            ),
        forall|i: int|
            0 <= i < stats@.len() ==> (#[trigger] rows@[i + 1])@[2]@ == crate::text::dec_str(
                stats@[i].1.repo_count as nat,
            ),
{
    let mut rows: Vec<Vec<String>> = Vec::new();
    let mut header: Vec<String> = Vec::new();
    header.push(String::from_str("language"));
    header.push(String::from_str("bytes"));
    header.push(String::from_str("repo_count"));
    rows.push(header);
    let mut i: usize = 0;
    while i < stats.len()
        invariant
            i <= stats@.len(),
            rows@.len() == i + 1,
            rows@[0]@.len() == 3,
            rows@[0]@[0]@ == "language"@,
            rows@[0]@[1]@ == "bytes"@,
            rows@[0]@[2]@ == "repo_count"@,
            forall|k: int| 0 <= k < i ==> (#[trigger] rows@[k + 1])@.len() == 3,
            forall|k: int| 0 <= k < i ==> (#[trigger] rows@[k + 1])@[0]@ == stats@[k].0@,
            forall|k: int|
                0 <= k < i ==> (#[trigger] rows@[k + 1])@[1]@ == crate::text::dec_str(
                    stats@[k].1.bytes as nat,
                ),
            forall|k: int|
                0 <= k < i ==> (#[trigger] rows@[k + 1])@[2]@ == crate::text::dec_str(
                    stats@[k].1.repo_count as nat,
                ),
        decreases stats@.len() - i,
    {
        let mut row: Vec<String> = Vec::new();
        row.push(stats[i].0.clone());
        row.push(crate::text::u128_to_dec(stats[i].1.bytes));
        row.push(crate::text::u32_to_dec(stats[i].1.repo_count));
        rows.push(row);
        i += 1;
    }
    rows
}

} // verus!
