use crate::languages::LanguageStats;
use crate::text::dec_str;
use crate::text::u128_to_dec;
use crate::text::u64_to_dec;
use vstd::arithmetic::div_mod::{
    lemma_div_is_ordered, lemma_div_multiples_vanish, lemma_div_pos_is_pos,
};
use vstd::arithmetic::mul::{lemma_mul_inequality, lemma_mul_upper_bound};
use vstd::prelude::*;
use vstd::string::StringExecFns;

verus! {

/// One placed treemap tile: a language, its aggregated stats, and the tile's
/// axis-aligned pixel rectangle.
pub struct PlacedRect {
    pub language: String,
    pub stats: LanguageStats,
    pub x: u64,
    pub y: u64,
    pub width: u64,
    pub height: u64,
}

/// The entries with a strictly positive score; zero-score languages get no
/// tile.
pub open spec fn positive_entries(s: Seq<(String, LanguageStats)>) -> Seq<(String, LanguageStats)> {
    s.filter(|p: (String, LanguageStats)| p.1.bytes > 0)
}

/// Scores are weakly decreasing along the sequence.
pub open spec fn sorted_desc(s: Seq<(String, LanguageStats)>) -> bool {
    forall|i: int, j: int| 0 <= i < j < s.len() ==> s[i].1.bytes >= s[j].1.bytes
}

/// Sum of the scores of a sequence of entries.
pub open spec fn total_score(s: Seq<(String, LanguageStats)>) -> int
    decreases s.len(),
{
    if s.len() == 0 {
        0
    } else {
        s.first().1.bytes + total_score(s.drop_first())
    }
}

/// The slice-and-dice treemap: each entry in turn receives a share
/// `score / total` of the remaining rectangle, cut from the currently longer
/// axis; layout stops once a remaining dimension is exhausted. Rectangles are
/// `(x, y, width, height)`.
pub open spec fn layout_spec(
    entries: Seq<(String, LanguageStats)>,
    total: int,
    x: int,
    y: int,
    w: int,
    h: int,
) -> Seq<(int, int, int, int)>
    decreases entries.len(),
{
    if entries.len() == 0 {
        Seq::empty()
    } else {
        let s = entries.first().1.bytes as int;
        if w > h {
            let rw = w * s / total;
            if w - rw == 0 || h == 0 {
                seq![(x, y, rw, h)]
            } else {
                seq![(x, y, rw, h)] + layout_spec(entries.drop_first(), total, x + rw, y, w - rw, h)
            }
        } else {
            let rh = h * s / total;
            if w == 0 || h - rh == 0 {
                seq![(x, y, w, rh)]
            } else {
                seq![(x, y, w, rh)] + layout_spec(entries.drop_first(), total, x, y + rh, w, h - rh)
            }
        }
    }
}

/// The area of the remaining rectangle when the layout stops: what early
/// termination (or the proportional rule itself) leaves uncovered.
pub open spec fn layout_leftover(
    entries: Seq<(String, LanguageStats)>,
    total: int,
    w: int,
    h: int,
) -> int
    decreases entries.len(),
{
    if entries.len() == 0 {
        w * h
    } else {
        let s = entries.first().1.bytes as int;
        if w > h {
            let rw = w * s / total;
            if w - rw == 0 || h == 0 {
                (w - rw) * h
            } else {
                layout_leftover(entries.drop_first(), total, w - rw, h)
            }
        } else {
            let rh = h * s / total;
            if w == 0 || h - rh == 0 {
                w * (h - rh)
            } else {
                layout_leftover(entries.drop_first(), total, w, h - rh)
            }
        }
    }
}

/// Sum of the areas of a sequence of rectangles.
pub open spec fn sum_areas(rects: Seq<(int, int, int, int)>) -> int
    decreases rects.len(),
{
    if rects.len() == 0 {
        0
    } else {
        rects.first().2 * rects.first().3 + sum_areas(rects.drop_first())
    }
}

/// The rectangle lies inside the region `[x, x+w] x [y, y+h]`.
pub open spec fn rect_in_region(r: (int, int, int, int), x: int, y: int, w: int, h: int) -> bool {
    &&& r.2 >= 0
    &&& r.3 >= 0
    &&& x <= r.0
    &&& r.0 + r.2 <= x + w
    &&& y <= r.1
    &&& r.1 + r.3 <= y + h
}

/// The two rectangles have no common interior point: they are separated
/// along one axis.
pub open spec fn rects_disjoint(a: (int, int, int, int), b: (int, int, int, int)) -> bool {
    ||| a.0 + a.2 <= b.0
    ||| b.0 + b.2 <= a.0
    ||| a.1 + a.3 <= b.1
    ||| b.1 + b.3 <= a.1
}

proof fn lemma_total_score_nonneg(s: Seq<(String, LanguageStats)>)
    ensures
        total_score(s) >= 0,
    decreases s.len(),
{
    if s.len() > 0 {
        lemma_total_score_nonneg(s.drop_first());
    }
}

proof fn lemma_elem_le_total_score(s: Seq<(String, LanguageStats)>, i: int)
    requires
        0 <= i < s.len(),
    ensures
        s[i].1.bytes <= total_score(s),
    decreases s.len(),
{
    if i == 0 {
        lemma_total_score_nonneg(s.drop_first());
    } else {
        lemma_elem_le_total_score(s.drop_first(), i - 1);
        assert(s.drop_first()[i - 1] == s[i]);
    }
}

/// Total score grows by the pushed entry's score.
proof fn lemma_total_score_push(s: Seq<(String, LanguageStats)>, e: (String, LanguageStats))
    ensures
        total_score(s.push(e)) == total_score(s) + e.1.bytes,
    decreases s.len(),
{
    if s.len() == 0 {
        assert(s.push(e).drop_first() =~= Seq::<(String, LanguageStats)>::empty());
        assert(s.push(e).first() == e);
        assert(total_score(s.push(e).drop_first()) == 0);
        assert(total_score(s.push(e)) == e.1.bytes + total_score(s.push(e).drop_first()));
    } else {
        assert(s.push(e).drop_first() =~= s.drop_first().push(e));
        assert(s.push(e).first() == s.first());
        lemma_total_score_push(s.drop_first(), e);
        assert(total_score(s.push(e)) == s.first().1.bytes + total_score(s.push(e).drop_first()));
        assert(total_score(s.push(e).drop_first()) == total_score(s.drop_first().push(e)));
        assert(total_score(s) == s.first().1.bytes + total_score(s.drop_first()));
    }
}

/// The fraction of a nonnegative length given to a score never exceeds the
/// length itself.
proof fn lemma_slice_bounds(len: int, s: int, total: int)
    requires
        len >= 0,
        0 <= s <= total,
        total > 0,
    ensures
        0 <= len * s / total <= len,
{
    lemma_mul_inequality(s, total, len);
    assert(s * len == len * s) by (nonlinear_arith);
    assert(total * len == len * total) by (nonlinear_arith);
    lemma_div_is_ordered(len * s, len * total, total);
    lemma_div_multiples_vanish(len, total);
    assert(total * len == len * total) by (nonlinear_arith);
    assert(len * s >= 0) by (nonlinear_arith)
        requires
            len >= 0,
            s >= 0,
    ;
    lemma_div_pos_is_pos(len * s, total);
}

/// Every rectangle the layout places lies inside the given region.
pub proof fn lemma_layout_in_bounds(
    entries: Seq<(String, LanguageStats)>,
    total: int,
    x: int,
    y: int,
    w: int,
    h: int,
)
    requires
        total > 0,
        w >= 0,
        h >= 0,
        total_score(entries) <= total,
    ensures
        forall|k: int|
            0 <= k < layout_spec(entries, total, x, y, w, h).len() ==> rect_in_region(
                #[trigger] layout_spec(entries, total, x, y, w, h)[k],
                x,
                y,
                w,
                h,
            ),
    decreases entries.len(),
{
    if entries.len() > 0 {
        let s = entries.first().1.bytes as int;
        let rest = entries.drop_first();
        lemma_elem_le_total_score(entries, 0);
        lemma_total_score_nonneg(rest);
        assert(0 <= s <= total);
        let res = layout_spec(entries, total, x, y, w, h);
        if w > h {
            let rw = w * s / total;
            lemma_slice_bounds(w, s, total);
            if !(w - rw == 0 || h == 0) {
                lemma_layout_in_bounds(rest, total, x + rw, y, w - rw, h);
                assert forall|k: int| 0 <= k < res.len() implies rect_in_region(
                    #[trigger] res[k],
                    x,
                    y,
                    w,
                    h,
                ) by {
                    if k >= 1 {
                        assert(res[k] == layout_spec(rest, total, x + rw, y, w - rw, h)[k - 1]);
                    }
                }
            }
        } else {
            let rh = h * s / total;
            lemma_slice_bounds(h, s, total);
            if !(w == 0 || h - rh == 0) {
                lemma_layout_in_bounds(rest, total, x, y + rh, w, h - rh);
                assert forall|k: int| 0 <= k < res.len() implies rect_in_region(
                    #[trigger] res[k],
                    x,
                    y,
                    w,
                    h,
                ) by {
                    if k >= 1 {
                        assert(res[k] == layout_spec(rest, total, x, y + rh, w, h - rh)[k - 1]);
                    }
                }
            }
        }
    }
}

/// No two rectangles the layout places overlap.
pub proof fn lemma_layout_disjoint(
    entries: Seq<(String, LanguageStats)>,
    total: int,
    x: int,
    y: int,
    w: int,
    h: int,
)
    requires
        total > 0,
        w >= 0,
        h >= 0,
        total_score(entries) <= total,
    ensures
        forall|a: int, b: int|
            0 <= a < b < layout_spec(entries, total, x, y, w, h).len() ==> rects_disjoint(
                #[trigger] layout_spec(entries, total, x, y, w, h)[a],
                #[trigger] layout_spec(entries, total, x, y, w, h)[b],
            ),
    decreases entries.len(),
{
    if entries.len() > 0 {
        let s = entries.first().1.bytes as int;
        let rest = entries.drop_first();
        lemma_elem_le_total_score(entries, 0);
        lemma_total_score_nonneg(rest);
        let res = layout_spec(entries, total, x, y, w, h);
        if w > h {
            let rw = w * s / total;
            lemma_slice_bounds(w, s, total);
            if !(w - rw == 0 || h == 0) {
                let sub = layout_spec(rest, total, x + rw, y, w - rw, h);
                lemma_layout_disjoint(rest, total, x + rw, y, w - rw, h);
                lemma_layout_in_bounds(rest, total, x + rw, y, w - rw, h);
                assert forall|a: int, b: int| 0 <= a < b < res.len() implies rects_disjoint(
                    #[trigger] res[a],
                    #[trigger] res[b],
                ) by {
                    if a == 0 {
                        assert(res[b] == sub[b - 1]);
                        assert(rect_in_region(sub[b - 1], x + rw, y, w - rw, h));
                    } else {
                        assert(res[a] == sub[a - 1]);
                        assert(res[b] == sub[b - 1]);
                    }
                }
            }
        } else {
            let rh = h * s / total;
            lemma_slice_bounds(h, s, total);
            if !(w == 0 || h - rh == 0) {
                let sub = layout_spec(rest, total, x, y + rh, w, h - rh);
                lemma_layout_disjoint(rest, total, x, y + rh, w, h - rh);
                lemma_layout_in_bounds(rest, total, x, y + rh, w, h - rh);
                assert forall|a: int, b: int| 0 <= a < b < res.len() implies rects_disjoint(
                    #[trigger] res[a],
                    #[trigger] res[b],
                ) by {
                    if a == 0 {
                        assert(res[b] == sub[b - 1]);
                        assert(rect_in_region(sub[b - 1], x, y + rh, w, h - rh));
                    } else {
                        assert(res[a] == sub[a - 1]);
                        assert(res[b] == sub[b - 1]);
                    }
                }
            }
        }
    }
}

/// Area accounting: the placed areas and the leftover area partition the
/// canvas exactly.
pub proof fn lemma_layout_area(
    entries: Seq<(String, LanguageStats)>,
    total: int,
    x: int,
    y: int,
    w: int,
    h: int,
)
    requires
        total > 0,
        w >= 0,
        h >= 0,
        total_score(entries) <= total,
    ensures
        sum_areas(layout_spec(entries, total, x, y, w, h)) + layout_leftover(entries, total, w, h)
            == w * h,
        layout_leftover(entries, total, w, h) >= 0,
    decreases entries.len(),
{
    if entries.len() == 0 {
        assert(w * h >= 0) by (nonlinear_arith)
            requires
                w >= 0,
                h >= 0,
        ;
    } else {
        let s = entries.first().1.bytes as int;
        let rest = entries.drop_first();
        lemma_elem_le_total_score(entries, 0);
        lemma_total_score_nonneg(rest);
        let res = layout_spec(entries, total, x, y, w, h);
        if w > h {
            let rw = w * s / total;
            lemma_slice_bounds(w, s, total);
            assert(rw * h + (w - rw) * h == w * h) by (nonlinear_arith);
            assert((w - rw) * h >= 0) by (nonlinear_arith)
                requires
                    w - rw >= 0,
                    h >= 0,
            ;
            if w - rw == 0 || h == 0 {
                assert(res =~= seq![(x, y, rw, h)]);
                assert(res.drop_first() =~= Seq::<(int, int, int, int)>::empty());
                assert(sum_areas(res) == rw * h + sum_areas(res.drop_first()));
                assert(sum_areas(res) == rw * h);
                assert(layout_leftover(entries, total, w, h) == (w - rw) * h);
            } else {
                lemma_layout_area(rest, total, x + rw, y, w - rw, h);
                let sub = layout_spec(rest, total, x + rw, y, w - rw, h);
                assert(res.first() == (x, y, rw, h));
                assert(res.drop_first() =~= sub);
                assert(sum_areas(res) == rw * h + sum_areas(sub));
                assert(layout_leftover(entries, total, w, h) == layout_leftover(
                    rest,
                    total,
                    w - rw,
                    h,
                ));
            }
        } else {
            let rh = h * s / total;
            lemma_slice_bounds(h, s, total);
            assert(w * rh + w * (h - rh) == w * h) by (nonlinear_arith);
            assert(w * (h - rh) >= 0) by (nonlinear_arith)
                requires
                    w >= 0,
                    h - rh >= 0,
            ;
            if w == 0 || h - rh == 0 {
                assert(res =~= seq![(x, y, w, rh)]);
                assert(res.drop_first() =~= Seq::<(int, int, int, int)>::empty());
                assert(sum_areas(res) == w * rh + sum_areas(res.drop_first()));
                assert(sum_areas(res) == w * rh);
                assert(layout_leftover(entries, total, w, h) == w * (h - rh));
            } else {
                lemma_layout_area(rest, total, x, y + rh, w, h - rh);
                let sub = layout_spec(rest, total, x, y + rh, w, h - rh);
                assert(res.first() == (x, y, w, rh));
                assert(res.drop_first() =~= sub);
                assert(sum_areas(res) == w * rh + sum_areas(sub));
                assert(layout_leftover(entries, total, w, h) == layout_leftover(
                    rest,
                    total,
                    w,
                    h - rh,
                ));
            }
        }
    }
}

/// Inserts an entry into a descending-sorted sequence after every entry of
/// equal or higher score, so a later input entry lands after earlier equals.
pub open spec fn insert_desc(
    sorted: Seq<(String, LanguageStats)>,
    e: (String, LanguageStats),
) -> Seq<(String, LanguageStats)>
    decreases sorted.len(),
{
    if sorted.len() == 0 {
        seq![e]
    } else if sorted.first().1.bytes >= e.1.bytes {
        seq![sorted.first()] + insert_desc(sorted.drop_first(), e)
    } else {
        seq![e] + sorted
    }
}

/// The stable descending sort of a stats list: scores weakly decreasing,
/// entries of equal score in their input order.
pub open spec fn stable_sorted_desc(s: Seq<(String, LanguageStats)>) -> Seq<
    (String, LanguageStats),
>
    decreases s.len(),
{
    if s.len() == 0 {
        Seq::empty()
    } else {
        insert_desc(stable_sorted_desc(s.drop_last()), s.last())
    }
}

/// `insert_desc` is the insertion at the first index whose score is lower.
proof fn lemma_insert_desc_at(
    sorted: Seq<(String, LanguageStats)>,
    e: (String, LanguageStats),
    idx: int,
)
    requires
        sorted_desc(sorted),
        0 <= idx <= sorted.len(),
        forall|k: int| 0 <= k < idx ==> (#[trigger] sorted[k]).1.bytes >= e.1.bytes,
        idx < sorted.len() ==> sorted[idx].1.bytes < e.1.bytes,
    ensures
        insert_desc(sorted, e) == sorted.insert(idx, e),
    decreases sorted.len(),
{
    if sorted.len() == 0 {
        assert(sorted.insert(0, e) =~= seq![e]);
    } else if idx == 0 {
        assert(seq![e] + sorted =~= sorted.insert(0, e));
    } else {
        assert(sorted[0].1.bytes >= e.1.bytes);
        let rest = sorted.drop_first();
        assert(forall|k: int| 0 <= k < idx - 1 ==> (#[trigger] rest[k]).1.bytes >= e.1.bytes) by {
            assert(forall|k: int| 0 <= k < rest.len() ==> #[trigger] rest[k] == sorted[k + 1]);
        }
        assert(idx - 1 < rest.len() ==> rest[idx - 1].1.bytes < e.1.bytes);
        lemma_insert_desc_at(rest, e, idx - 1);
        assert(seq![sorted.first()] + rest.insert(idx - 1, e) =~= sorted.insert(idx, e));
    }
}

/// The positive-score entries, sorted by score descending. The contract pins
/// the tie-break: entries of equal score keep their input order (the
/// deterministic choice this library fixes, since map iteration order in the
/// data source is arbitrary).
pub fn sorted_positive_entries(stats: &Vec<(String, LanguageStats)>) -> (res: Vec<
    (String, LanguageStats),
>)
    ensures
        res@ == stable_sorted_desc(positive_entries(stats@)),
        res@.to_multiset() == positive_entries(stats@).to_multiset(),
        sorted_desc(res@),
        forall|i: int| 0 <= i < res@.len() ==> (#[trigger] res@[i]).1.bytes > 0,
{
    let mut res: Vec<(String, LanguageStats)> = Vec::new();
    let mut j: usize = 0;
    proof {
        reveal_with_fuel(Seq::<_>::filter, 2);
        assert(stats@.take(0) =~= Seq::<(String, LanguageStats)>::empty());
        assert(res@ =~= stable_sorted_desc(positive_entries(stats@.take(0))));
        res@.to_multiset_ensures();
        vstd::multiset::lemma_multiset_empty_len(res@.to_multiset());
        assert(res@.to_multiset() =~= positive_entries(stats@.take(0)).to_multiset());
    }
    while j < stats.len()
        invariant
            j <= stats@.len(),
            res@ == stable_sorted_desc(positive_entries(stats@.take(j as int))),
            res@.to_multiset() == positive_entries(stats@.take(j as int)).to_multiset(),
            sorted_desc(res@),
            forall|i: int| 0 <= i < res@.len() ==> (#[trigger] res@[i]).1.bytes > 0,
        decreases stats@.len() - j,
    {
        let ghost pre = positive_entries(stats@.take(j as int));
        proof {
            reveal_with_fuel(Seq::<_>::filter, 2);
            assert(stats@.take(j as int + 1).drop_last() =~= stats@.take(j as int));
            assert(stats@.take(j as int + 1).last() == stats@[j as int]);
        }
        if stats[j].1.bytes > 0 {
            let item = (stats[j].0.clone(), stats[j].1);
            proof {
                assert(item == stats@[j as int]);
                assert(positive_entries(stats@.take(j as int + 1)) =~= pre.push(item));
            }
            let mut idx: usize = 0;
            while idx < res.len() && res[idx].1.bytes >= item.1.bytes
                invariant
                    idx <= res@.len(),
                    forall|k: int| 0 <= k < idx ==> (#[trigger] res@[k]).1.bytes >= item.1.bytes,
                decreases res@.len() - idx,
            {
                idx += 1;
            }
            let ghost res0 = res@;
            res.insert(idx, item);
            proof {
                broadcast use vstd::multiset::group_multiset_axioms;

                lemma_insert_desc_at(res0, item, idx as int);
                assert(pre.push(item).drop_last() =~= pre);
                assert(res@ =~= stable_sorted_desc(positive_entries(stats@.take(j as int + 1))));
                // Multiset: removing the inserted entry recovers the old list.
                res@.to_multiset_ensures();
                pre.to_multiset_ensures();
                assert(pre.push(item).to_multiset() =~= pre.to_multiset().insert(item));
                assert(res@.remove(idx as int) =~= res0);
                assert(res@[idx as int] == item);
                assert(res@.contains(res@[idx as int]));
                assert(res@.to_multiset().count(item) > 0);
                assert(res@.to_multiset() =~= res0.to_multiset().insert(item));
                assert(res@.to_multiset() =~= positive_entries(
                    stats@.take(j as int + 1),
                ).to_multiset());
                // Order and positivity, index by index around the insertion.
                res0.insert_ensures(idx as int, item);
                assert forall|a: int, b: int| 0 <= a < b < res@.len() implies (
                #[trigger] res@[a]).1.bytes >= (#[trigger] res@[b]).1.bytes by {
                    if a < idx && b > idx {
                        assert(res@[a] == res0[a] && res@[b] == res0[b - 1]);
                        if b - 1 == a {
                            assert(res@[a].1.bytes >= item.1.bytes);
                            assert(item.1.bytes > res0[b - 1].1.bytes || res@[a].1.bytes >= res0[b
                                - 1].1.bytes);
                        }
                    }
                }
            }
        } else {
            proof {
                reveal_with_fuel(Seq::<_>::filter, 2);
                assert(positive_entries(stats@.take(j as int + 1)) =~= pre);
            }
        }
        j += 1;
    }
    proof {
        assert(stats@.take(stats@.len() as int) =~= stats@);
    }
    res
}

/// Geometry of the treemap for already filtered, sorted entries on the
/// canvas rectangle `[x0, x0+w] x [y0, y0+h]`.
pub open spec fn treemap_geometry(
    entries: Seq<(String, LanguageStats)>,
    w: int,
    h: int,
    x0: int,
    y0: int,
) -> Seq<(int, int, int, int)> {
    layout_spec(entries, total_score(entries), x0, y0, w, h)
}

/// Places one rectangle per entry by the slice-and-dice rule, stopping early
/// once a remaining canvas dimension reaches zero. The result order is the
/// entry order, so with sorted input the tiles come in descending-score
/// order.
pub fn calculate_treemap_rects(
    entries: &Vec<(String, LanguageStats)>,
    width: u32,
    height: u32,
    x_offset: u32,
    y_offset: u32,
) -> (res: Vec<PlacedRect>)
    requires
        forall|i: int| 0 <= i < entries@.len() ==> (#[trigger] entries@[i]).1.bytes > 0,
        sorted_desc(entries@),
        total_score(entries@) < 0x1000000000000000000000000,
    ensures
        res@.len() <= entries@.len(),
        res@.len() == treemap_geometry(
            entries@,
            width as int,
            height as int,
            x_offset as int,
            y_offset as int,
        ).len(),
        forall|k: int|
            0 <= k < res@.len() ==> ((#[trigger] res@[k]).x as int, res@[k].y as int,
            res@[k].width as int, res@[k].height as int) == treemap_geometry(
                entries@,
                width as int,
                height as int,
                x_offset as int,
                y_offset as int,
            )[k],
        forall|k: int|
            0 <= k < res@.len() ==> (#[trigger] res@[k]).language == entries@[k].0 && res@[k].stats
                == entries@[k].1,
        forall|k1: int, k2: int|
            0 <= k1 < k2 < res@.len() ==> (#[trigger] res@[k1]).stats.bytes >= (
            #[trigger] res@[k2]).stats.bytes,
        forall|k: int|
            0 <= k < res@.len() ==> x_offset <= (#[trigger] res@[k]).x && res@[k].x + res@[k].width
                <= x_offset + width && y_offset <= res@[k].y && res@[k].y + res@[k].height
                <= y_offset + height,
        forall|k1: int, k2: int|
            0 <= k1 < k2 < res@.len() ==> rects_disjoint(
                ((#[trigger] res@[k1]).x as int, res@[k1].y as int, res@[k1].width as int,
                res@[k1].height as int),
                ((#[trigger] res@[k2]).x as int, res@[k2].y as int, res@[k2].width as int,
                res@[k2].height as int),
            ),
        sum_areas(placed_geometry(res@)) + layout_leftover(
            entries@,
            total_score(entries@),
            width as int,
            height as int,
        ) == width * height,
{
    let ghost total_g = total_score(entries@);
    let ghost geo = treemap_geometry(
        entries@,
        width as int,
        height as int,
        x_offset as int,
        y_offset as int,
    );

    let total = sum_scores(entries);
    let mut res: Vec<PlacedRect> = Vec::new();
    let mut x: u64 = x_offset as u64;
    let mut y: u64 = y_offset as u64;
    let mut cw: u64 = width as u64;
    let mut ch: u64 = height as u64;
    let mut i: usize = 0;
    proof {
        assert(entries@.skip(0) =~= entries@);
        assert(placed_geometry(res@) =~= Seq::<(int, int, int, int)>::empty());
        assert(geo =~= placed_geometry(res@) + layout_spec(
            entries@.skip(0),
            total_g as int,
            x as int,
            y as int,
            cw as int,
            ch as int,
        ));
    }
    while i < entries.len()
        invariant
            i <= entries@.len(),
            res@.len() == i,
            total == total_g,
            total_score(entries@) == total_g,
            total_g < 0x1000000000000000000000000,
            forall|k: int| 0 <= k < entries@.len() ==> (#[trigger] entries@[k]).1.bytes > 0,
            sorted_desc(entries@),
            geo == treemap_geometry(
                entries@,
                width as int,
                height as int,
                x_offset as int,
                y_offset as int,
            ),
            x_offset <= x,
            y_offset <= y,
            x + cw <= x_offset + width,
            y + ch <= y_offset + height,
            total_score(entries@.skip(i as int)) <= total_g,
            geo =~= placed_geometry(res@) + layout_spec(
                entries@.skip(i as int),
                total_g as int,
                x as int,
                y as int,
                cw as int,
                ch as int,
            ),
            forall|k: int|
                0 <= k < i ==> (#[trigger] res@[k]).language == entries@[k].0 && res@[k].stats
                    == entries@[k].1,
            forall|k: int|
                0 <= k < res@.len() ==> ((#[trigger] res@[k]).x as int, res@[k].y as int,
                res@[k].width as int, res@[k].height as int) == geo[k],
        decreases entries@.len() - i,
    {
        let ghost rem = entries@.skip(i as int);
        proof {
            assert(rem.first() == entries@[i as int]);
            assert(rem.drop_first() =~= entries@.skip(i as int + 1));
            lemma_elem_le_total_score(rem, 0);
            lemma_total_score_nonneg(rem.drop_first());
            assert(total_g > 0);
            lemma_mul_upper_bound(
                cw as int,
                0xFFFF_FFFF,
                entries@[i as int].1.bytes as int,
                total_g as int,
            );
            lemma_mul_upper_bound(
                ch as int,
                0xFFFF_FFFF,
                entries@[i as int].1.bytes as int,
                total_g as int,
            );
            assert(0xFFFF_FFFF * total_g < 0x100000000000000000000000000000000) by (nonlinear_arith)
                requires
                    total_g < 0x1000000000000000000000000,
            ;
        }
        let ghost xg = x as int;
        let ghost yg = y as int;
        let ghost cwg = cw as int;
        let ghost chg = ch as int;
        let s = entries[i].1.bytes;
        let rect: PlacedRect;
        if cw > ch {
            let rw128: u128 = (cw as u128) * s / total;
            proof {
                lemma_slice_bounds(cw as int, s as int, total_g as int);
            }
            let rw: u64 = rw128 as u64;
            rect = PlacedRect {
                language: entries[i].0.clone(),
                stats: entries[i].1,
                x,
                y,
                width: rw,
                height: ch,
            };
            x = x + rw;
            cw = cw - rw;
        } else {
            let rh128: u128 = (ch as u128) * s / total;
            proof {
                lemma_slice_bounds(ch as int, s as int, total_g as int);
            }
            let rh: u64 = rh128 as u64;
            rect = PlacedRect {
                language: entries[i].0.clone(),
                stats: entries[i].1,
                x,
                y,
                width: cw,
                height: rh,
            };
            y = y + rh;
            ch = ch - rh;
        }
        let ghost res0 = res@;
        res.push(rect);
        let ghost rect_geo = (rect.x as int, rect.y as int, rect.width as int, rect.height as int);
        proof {
            assert(placed_geometry(res@) =~= placed_geometry(res0).push(rect_geo));
        }
        if cw == 0 || ch == 0 {
            proof {
                assert(layout_spec(rem, total_g as int, xg, yg, cwg, chg) =~= seq![rect_geo]);
                assert(placed_geometry(res0) + seq![rect_geo] =~= placed_geometry(res@));
                assert(geo =~= placed_geometry(res@));
                assert forall|k: int| 0 <= k < res@.len() implies (#[trigger] res@[k]).stats
                    == entries@[k].1 by {
                    if k < i {
                        assert(res@[k] == res0[k]);
                    }
                }
                assert forall|k1: int, k2: int|
                    0 <= k1 < k2 < res@.len() implies (#[trigger] res@[k1]).stats.bytes >= (
                #[trigger] res@[k2]).stats.bytes by {
                    assert(res@[k1].stats == entries@[k1].1);
                    assert(res@[k2].stats == entries@[k2].1);
                    assert(entries@[k1].1.bytes >= entries@[k2].1.bytes);
                }
                lemma_exec_rect_facts(entries@, res@, width, height, x_offset, y_offset);
            }
            return res;
        }
        proof {
            assert(layout_spec(rem, total_g as int, xg, yg, cwg, chg) =~= seq![rect_geo]
                + layout_spec(
                entries@.skip(i as int + 1),
                total_g as int,
                x as int,
                y as int,
                cw as int,
                ch as int,
            ));
            assert(placed_geometry(res0) + (seq![rect_geo] + layout_spec(
                entries@.skip(i as int + 1),
                total_g as int,
                x as int,
                y as int,
                cw as int,
                ch as int,
            )) =~= placed_geometry(res@) + layout_spec(
                entries@.skip(i as int + 1),
                total_g as int,
                x as int,
                y as int,
                cw as int,
                ch as int,
            ));
        }
        i += 1;
    }
    proof {
        assert(entries@.skip(entries@.len() as int) =~= Seq::<(String, LanguageStats)>::empty());
        assert(geo =~= placed_geometry(res@));
        lemma_exec_rect_facts(entries@, res@, width, height, x_offset, y_offset);
    }
    res
}

/// Integer view of the placed rectangles.
pub open spec fn placed_geometry(res: Seq<PlacedRect>) -> Seq<(int, int, int, int)> {
    res.map_values(|r: PlacedRect| (r.x as int, r.y as int, r.width as int, r.height as int))
}

proof fn lemma_total_score_remove(s: Seq<(String, LanguageStats)>, i: int)
    requires
        0 <= i < s.len(),
    ensures
        total_score(s.remove(i)) == total_score(s) - s[i].1.bytes,
    decreases s.len(),
{
    if i == 0 {
        assert(s.remove(0) =~= s.drop_first());
    } else {
        assert(s.remove(i).first() == s.first());
        assert(s.remove(i).drop_first() =~= s.drop_first().remove(i - 1));
        lemma_total_score_remove(s.drop_first(), i - 1);
        assert(s.drop_first()[i - 1] == s[i]);
    }
}

/// The total score only depends on which entries are present, not on their
/// order.
pub proof fn lemma_total_score_permutation(
    s1: Seq<(String, LanguageStats)>,
    s2: Seq<(String, LanguageStats)>,
)
    requires
        s1.to_multiset() == s2.to_multiset(),
    ensures
        total_score(s1) == total_score(s2),
    decreases s1.len(),
{
    s1.to_multiset_ensures();
    s2.to_multiset_ensures();
    if s1.len() == 0 {
        assert(s2.len() == 0);
    } else {
        let x = s1.last();
        let d1 = s1.drop_last();
        assert(s1.remove(s1.len() - 1) =~= d1);
        assert(s1[s1.len() - 1] == x);
        assert(s1.contains(x));
        assert(s2.to_multiset().count(x) > 0);
        assert(s2.contains(x));
        let j = choose|j: int| 0 <= j < s2.len() && s2[j] == x;
        let d2 = s2.remove(j);
        assert(d1.to_multiset() == d2.to_multiset());
        lemma_total_score_permutation(d1, d2);
        lemma_total_score_remove(s1, s1.len() - 1);
        lemma_total_score_remove(s2, j);
    }
}

/// Dropping the zero-score entries does not change the total score.
pub proof fn lemma_total_score_positive_filter(s: Seq<(String, LanguageStats)>)
    ensures
        total_score(positive_entries(s)) == total_score(s),
    decreases s.len(),
{
    reveal_with_fuel(Seq::<_>::filter, 2);
    if s.len() > 0 {
        let d = s.drop_last();
        lemma_total_score_positive_filter(d);
        assert(s =~= d.push(s.last()));
        lemma_total_score_push(d, s.last());
        if s.last().1.bytes > 0 {
            lemma_total_score_push(positive_entries(d), s.last());
        }
    }
}

/// With a single entry no early termination can occur and the proportional
/// rule hands it the whole canvas: nothing is forfeited, so the placed area
/// equals the canvas area exactly.
pub proof fn lemma_layout_single_entry_covers(
    entries: Seq<(String, LanguageStats)>,
    x: int,
    y: int,
    w: int,
    h: int,
)
    requires
        entries.len() == 1,
        total_score(entries) > 0,
        w >= 0,
        h >= 0,
    ensures
        layout_leftover(entries, total_score(entries), w, h) == 0,
        sum_areas(layout_spec(entries, total_score(entries), x, y, w, h)) == w * h,
{
    let total = total_score(entries);
    lemma_layout_area(entries, total, x, y, w, h);
    if w > h {
        lemma_div_multiples_vanish(w, total);
        assert(total * w == w * total) by (nonlinear_arith);
        assert(w * (total_score(entries)) == w * total);
        assert(entries.first().1.bytes == total) by {
            assert(total_score(entries.drop_first()) == 0);
        }
        assert(w * (entries.first().1.bytes as int) / total == w);
        assert((w - w) * h == 0) by (nonlinear_arith);
    } else {
        lemma_div_multiples_vanish(h, total);
        assert(total * h == h * total) by (nonlinear_arith);
        assert(entries.first().1.bytes == total) by {
            assert(total_score(entries.drop_first()) == 0);
        }
        assert(h * (entries.first().1.bytes as int) / total == h);
        assert(w * (h - h) == 0) by (nonlinear_arith);
    }
}

/// The fixed document frame: canvas 800 x 600 with the title text.
pub open spec fn svg_header() -> Seq<char> {
    "<svg width=\"800\" height=\"600\" xmlns=\"http://www.w3.org/2000/svg\">\n"@
        + "  <text x=\"400\" y=\"30\" text-anchor=\"middle\" font-size=\"24\" font-family=\"sans-serif\">Language Statistics</text>\n"@
}

/// The degenerate document: the frame alone, with no tiles.
pub open spec fn empty_treemap_svg() -> Seq<char> {
    svg_header() + "</svg>"@
}

/// The fixed eight-entry fill palette, cycled by tile position.
pub open spec fn palette_color(i: int) -> Seq<char> {
    let k = i % 8;
    if k == 0 {
        "#FF6B6B"@
    } else if k == 1 {
        "#4ECDC4"@
    } else if k == 2 {
        "#45B7D1"@
    } else if k == 3 {
        "#FFA07A"@
    } else if k == 4 {
        "#98D8C8"@
    } else if k == 5 {
        "#F7DC6F"@
    } else if k == 6 {
        "#BB8FCE"@
    } else {
        "#F8C471"@
    }
}

fn color_at(i: usize) -> (c: &'static str)
    ensures
        c@ == palette_color(i as int),
{
    let k = i % 8;
    if k == 0 {
        "#FF6B6B"
    } else if k == 1 {
        "#4ECDC4"
    } else if k == 2 {
        "#45B7D1"
    } else if k == 3 {
        "#FFA07A"
    } else if k == 4 {
        "#98D8C8"
    } else if k == 5 {
        "#F7DC6F"
    } else if k == 6 {
        "#BB8FCE"
    } else {
        "#F8C471"
    }
}

/// A score's share of the total, in tenths of a percent, rounded half up.
pub open spec fn pct_tenths(score: int, total: int) -> int {
    (score * 2000 + total) / (2 * total)
}

/// The share rendered with one decimal place, e.g. `54.5%`.
pub open spec fn pct_label(score: int, total: int) -> Seq<char> {
    dec_str((pct_tenths(score, total) / 10) as nat) + "."@ + dec_str(
        (pct_tenths(score, total) % 10) as nat,
    ) + "%"@
}

fn pct_string(score: u128, total: u128) -> (r: String)
    requires
        total > 0,
        score <= total,
        total < 0x1000000000000000000000000,
    ensures
        r@ == pct_label(score as int, total as int),
{
    let t: u128 = (score * 2000 + total) / (2 * total);
    let mut s = u128_to_dec(t / 10);
    let frac = u128_to_dec(t % 10);
    s.append(".");
    s.append(frac.as_str());
    s.append("%");
    proof {
        assert(s@ =~= pct_label(score as int, total as int));
    }
    s
}

/// Font size of a tile label: 14 for roomy tiles, 10 otherwise.
pub open spec fn label_font_size(r: PlacedRect) -> int {
    if r.width > 80 && r.height > 40 {
        14
    } else {
        10
    }
}

/// The filled rectangle element of one tile.
pub open spec fn rect_elem(r: PlacedRect, i: int) -> Seq<char> {
    "  <rect x=\""@ + dec_str(r.x as nat) + "\" y=\""@ + dec_str(r.y as nat) + "\" width=\""@
        + dec_str(r.width as nat) + "\" height=\""@ + dec_str(r.height as nat) + "\" fill=\""@
        + palette_color(i) + "\" stroke=\"white\" stroke-width=\"1\"/>\n"@
}

/// The centered label element of one tile: language name and share.
pub open spec fn label_elem(r: PlacedRect, total: int) -> Seq<char> {
    "  <text x=\""@ + dec_str((r.x + r.width / 2) as nat) + "\" y=\""@ + dec_str(
        (r.y + r.height / 2 + label_font_size(r) / 3) as nat,
    ) + "\" text-anchor=\"middle\" font-family=\"sans-serif\" font-size=\""@ + dec_str(
        label_font_size(r) as nat,
    ) + "\" fill=\"white\">"@ + r.language@ + " ("@ + pct_label(r.stats.bytes as int, total)
        + ")</text>\n"@
}

/// Everything one tile emits: a rectangle only above the 5 x 5 visibility
/// floor, plus a label only above the 30 x 20 legibility floor.
pub open spec fn tile_svg(r: PlacedRect, i: int, total: int) -> Seq<char> {
    if r.width > 5 && r.height > 5 {
        rect_elem(r, i) + (if r.width > 30 && r.height > 20 {
            label_elem(r, total)
        } else {
            Seq::<char>::empty()
        })
    } else {
        Seq::<char>::empty()
    }
}

/// The concatenated tile markup for a rectangle sequence.
pub open spec fn rects_svg(rs: Seq<PlacedRect>, total: int) -> Seq<char>
    decreases rs.len(),
{
    if rs.len() == 0 {
        Seq::<char>::empty()
    } else {
        rects_svg(rs.drop_last(), total) + tile_svg(rs.last(), rs.len() - 1, total)
    }
}

/// The complete vector document for a rectangle sequence.
pub open spec fn treemap_svg_doc(rs: Seq<PlacedRect>, total: int) -> Seq<char> {
    svg_header() + rects_svg(rs, total) + "</svg>"@
}

fn append_rect_elem(out: &mut String, r: &PlacedRect, i: usize)
    ensures
        final (out)@ == old(out)@ + rect_elem(*r, i as int),
{
    out.append("  <rect x=\"");
    let xs = u64_to_dec(r.x);
    out.append(xs.as_str());
    out.append("\" y=\"");
    let ys = u64_to_dec(r.y);
    out.append(ys.as_str());
    out.append("\" width=\"");
    let ws = u64_to_dec(r.width);
    out.append(ws.as_str());
    out.append("\" height=\"");
    let hs = u64_to_dec(r.height);
    out.append(hs.as_str());
    out.append("\" fill=\"");
    out.append(color_at(i));
    out.append("\" stroke=\"white\" stroke-width=\"1\"/>\n");
    proof {
        assert(out@ =~= old(out)@ + rect_elem(*r, i as int));
    }
}

fn append_label_elem(out: &mut String, r: &PlacedRect, total: u128)
    requires
        total > 0,
        total < 0x1000000000000000000000000,
        r.stats.bytes <= total,
        r.x <= 0x4000000000000000,
        r.y <= 0x4000000000000000,
        r.width <= 0x4000000000000000,
        r.height <= 0x4000000000000000,
    ensures
        final (out)@ == old(out)@ + label_elem(*r, total as int),
{
    let fs: u64 = if r.width > 80 && r.height > 40 {
        14
    } else {
        10
    };
    out.append("  <text x=\"");
    let cxs = u64_to_dec(r.x + r.width / 2);
    out.append(cxs.as_str());
    out.append("\" y=\"");
    let cys = u64_to_dec(r.y + r.height / 2 + fs / 3);
    out.append(cys.as_str());
    out.append("\" text-anchor=\"middle\" font-family=\"sans-serif\" font-size=\"");
    let fss = u64_to_dec(fs);
    out.append(fss.as_str());
    out.append("\" fill=\"white\">");
    out.append(r.language.as_str());
    out.append(" (");
    let ps = pct_string(r.stats.bytes, total);
    out.append(ps.as_str());
    out.append(")</text>\n");
    proof {
        assert(out@ =~= old(out)@ + label_elem(*r, total as int));
    }
}

/// Serializes placed rectangles into the vector image document.
pub fn render_treemap_svg(rects: &Vec<PlacedRect>, total: u128) -> (r: String)
    requires
        total > 0,
        total < 0x1000000000000000000000000,
        forall|k: int| 0 <= k < rects@.len() ==> (#[trigger] rects@[k]).stats.bytes <= total,
        forall|k: int|
            0 <= k < rects@.len() ==> (#[trigger] rects@[k]).x <= 0x4000000000000000
                && rects@[k].y <= 0x4000000000000000 && rects@[k].width <= 0x4000000000000000
                && rects@[k].height <= 0x4000000000000000,
    ensures
        r@ == treemap_svg_doc(rects@, total as int),
{
    let mut out = String::new();
    out.append("<svg width=\"800\" height=\"600\" xmlns=\"http://www.w3.org/2000/svg\">\n");
    out.append(
        "  <text x=\"400\" y=\"30\" text-anchor=\"middle\" font-size=\"24\" font-family=\"sans-serif\">Language Statistics</text>\n",
    );
    proof {
        assert(out@ =~= svg_header());
        assert(rects@.take(0) =~= Seq::<PlacedRect>::empty());
        assert(out@ =~= svg_header() + rects_svg(rects@.take(0), total as int));
    }
    let mut i: usize = 0;
    while i < rects.len()
        invariant
            i <= rects@.len(),
            total > 0,
            total < 0x1000000000000000000000000,
            forall|k: int| 0 <= k < rects@.len() ==> (#[trigger] rects@[k]).stats.bytes <= total,
            forall|k: int|
                0 <= k < rects@.len() ==> (#[trigger] rects@[k]).x <= 0x4000000000000000
                    && rects@[k].y <= 0x4000000000000000 && rects@[k].width <= 0x4000000000000000
                    && rects@[k].height <= 0x4000000000000000,
            out@ == svg_header() + rects_svg(rects@.take(i as int), total as int),
        decreases rects@.len() - i,
    {
        let ghost pre = out@;
        let r = &rects[i];
        if r.width > 5 && r.height > 5 {
            append_rect_elem(&mut out, r, i);
            if r.width > 30 && r.height > 20 {
                append_label_elem(&mut out, r, total);
            }
            proof {
                assert(out@ =~= pre + tile_svg(rects@[i as int], i as int, total as int));
            }
        } else {
            proof {
                assert(out@ =~= pre + tile_svg(rects@[i as int], i as int, total as int));
            }
        }
        proof {
            assert(rects@.take(i as int + 1).drop_last() =~= rects@.take(i as int));
            assert(rects@.take(i as int + 1).last() == rects@[i as int]);
            assert(rects@.take(i as int + 1).len() - 1 == i as int);
            assert(out@ =~= svg_header() + rects_svg(rects@.take(i as int + 1), total as int));
        }
        i += 1;
    }
    proof {
        assert(rects@.take(rects@.len() as int) =~= rects@);
    }
    out.append("</svg>");
    proof {
        assert(out@ =~= treemap_svg_doc(rects@, total as int));
    }
    out
}

proof fn lemma_exec_rect_facts(
    entries: Seq<(String, LanguageStats)>,
    res: Seq<PlacedRect>,
    width: u32,
    height: u32,
    x_offset: u32,
    y_offset: u32,
)
    requires
        forall|i: int| 0 <= i < entries.len() ==> (#[trigger] entries[i]).1.bytes > 0,
        placed_geometry(res) == treemap_geometry(
            entries,
            width as int,
            height as int,
            x_offset as int,
            y_offset as int,
        ),
    ensures
        forall|k: int|
            0 <= k < res.len() ==> x_offset <= (#[trigger] res[k]).x && res[k].x + res[k].width
                <= x_offset + width && y_offset <= res[k].y && res[k].y + res[k].height <= y_offset
                + height,
        forall|k1: int, k2: int|
            0 <= k1 < k2 < res.len() ==> rects_disjoint(
                ((#[trigger] res[k1]).x as int, res[k1].y as int, res[k1].width as int,
                res[k1].height as int),
                ((#[trigger] res[k2]).x as int, res[k2].y as int, res[k2].width as int,
                res[k2].height as int),
            ),
        sum_areas(placed_geometry(res)) + layout_leftover(
            entries,
            total_score(entries),
            width as int,
            height as int,
        ) == width * height,
{
    let total = total_score(entries);
    let geo = treemap_geometry(entries, width as int, height as int, x_offset as int, y_offset as int);
    assert(res.len() == geo.len());
    if entries.len() == 0 {
        assert(geo =~= Seq::<(int, int, int, int)>::empty());
        assert(sum_areas(placed_geometry(res)) == 0);
        assert(layout_leftover(entries, total, width as int, height as int) == width * height);
    } else {
        lemma_elem_le_total_score(entries, 0);
        assert(total > 0);
        lemma_layout_in_bounds(
            entries,
            total,
            x_offset as int,
            y_offset as int,
            width as int,
            height as int,
        );
        lemma_layout_disjoint(
            entries,
            total,
            x_offset as int,
            y_offset as int,
            width as int,
            height as int,
        );
        lemma_layout_area(
            entries,
            total,
            x_offset as int,
            y_offset as int,
            width as int,
            height as int,
        );
        assert forall|k: int| 0 <= k < res.len() implies x_offset <= (#[trigger] res[k]).x && res[
            k
        ].x + res[k].width <= x_offset + width && y_offset <= res[k].y && res[k].y + res[k].height
            <= y_offset + height by {
            assert(placed_geometry(res)[k] == (res[k].x as int, res[k].y as int, res[k].width as int,
            res[k].height as int));
            assert(rect_in_region(geo[k], x_offset as int, y_offset as int, width as int,
            height as int));
        }
        assert forall|k1: int, k2: int| 0 <= k1 < k2 < res.len() implies rects_disjoint(
            ((#[trigger] res[k1]).x as int, res[k1].y as int, res[k1].width as int,
            res[k1].height as int),
            ((#[trigger] res[k2]).x as int, res[k2].y as int, res[k2].width as int,
            res[k2].height as int),
        ) by {
            assert(placed_geometry(res)[k1] == (res[k1].x as int, res[k1].y as int,
            res[k1].width as int, res[k1].height as int));
            assert(placed_geometry(res)[k2] == (res[k2].x as int, res[k2].y as int,
            res[k2].width as int, res[k2].height as int));
            assert(rects_disjoint(geo[k1], geo[k2]));
        }
    }
}

/// The placed rectangles of a filtered, sorted stats list, as values: the
/// k-th tile carries entry k and the k-th geometry rectangle.
pub open spec fn placed_rects_of(
    entries: Seq<(String, LanguageStats)>,
    w: int,
    h: int,
    x0: int,
    y0: int,
) -> Seq<PlacedRect> {
    let geo = treemap_geometry(entries, w, h, x0, y0);
    Seq::new(
        geo.len(),
        |k: int|
            PlacedRect {
                language: entries[k].0,
                stats: entries[k].1,
                x: geo[k].0 as u64,
                y: geo[k].1 as u64,
                width: geo[k].2 as u64,
                height: geo[k].3 as u64,
            },
    )
}

/// The full rendering pass: filter, sort, lay out on the 800 x 550 band
/// below the title, and serialize. A zero total score yields the bare
/// document frame; otherwise the result is the document for the stably
/// sorted positive entries, pinned to the last character.
pub fn generate_treemap_svg(language_stats: &Vec<(String, LanguageStats)>) -> (r: String)
    requires
        total_score(language_stats@) < 0x1000000000000000000000000,
    ensures
        total_score(language_stats@) == 0 ==> r@ == empty_treemap_svg(),
        total_score(language_stats@) != 0 ==> r@ == treemap_svg_doc(
            placed_rects_of(stable_sorted_desc(positive_entries(language_stats@)), 800, 550, 0, 50),
            total_score(language_stats@),
        ),
{
    let total = sum_scores(language_stats);
    if total == 0 {
        let mut out = String::new();
        out.append("<svg width=\"800\" height=\"600\" xmlns=\"http://www.w3.org/2000/svg\">\n");
        out.append(
            "  <text x=\"400\" y=\"30\" text-anchor=\"middle\" font-size=\"24\" font-family=\"sans-serif\">Language Statistics</text>\n",
        );
        out.append("</svg>");
        proof {
            assert(out@ =~= empty_treemap_svg());
        }
        return out;
    }
    let sorted = sorted_positive_entries(language_stats);
    proof {
        lemma_total_score_permutation(sorted@, positive_entries(language_stats@));
        lemma_total_score_positive_filter(language_stats@);
        assert(total_score(sorted@) == total_score(language_stats@));
    }
    let rects = calculate_treemap_rects(&sorted, 800, 550, 0, 50);
    proof {
        let geo = treemap_geometry(sorted@, 800, 550, 0, 50);
        lemma_layout_in_bounds(sorted@, total_score(sorted@), 0, 50, 800, 550);
        assert forall|k: int| 0 <= k < rects@.len() implies (#[trigger] rects@[k]).x
            <= 0x4000000000000000 && rects@[k].y <= 0x4000000000000000 && rects@[k].width
            <= 0x4000000000000000 && rects@[k].height <= 0x4000000000000000 by {
            assert(rect_in_region(geo[k], 0, 50, 800, 550));
        }
        assert forall|k: int| 0 <= k < rects@.len() implies (#[trigger] rects@[k]).stats.bytes
            <= total by {
            assert(rects@[k].stats == sorted@[k].1);
            lemma_elem_le_total_score(sorted@, k);
        }
    }
    let svg = render_treemap_svg(&rects, total);
    proof {
        let ss = stable_sorted_desc(positive_entries(language_stats@));
        assert(sorted@ == ss);
        let geo = treemap_geometry(ss, 800, 550, 0, 50);
        let prs = placed_rects_of(ss, 800, 550, 0, 50);
        lemma_layout_in_bounds(ss, total_score(ss), 0, 50, 800, 550);
        assert forall|k: int| 0 <= k < rects@.len() implies #[trigger] rects@[k] == prs[k] by {
            assert(rect_in_region(geo[k], 0, 50, 800, 550));
            assert(rects@[k].x as int == geo[k].0);
            assert(rects@[k].y as int == geo[k].1);
            assert(rects@[k].width as int == geo[k].2);
            assert(rects@[k].height as int == geo[k].3);
            assert(prs[k].x == geo[k].0 as u64);
            assert(prs[k].language == ss[k].0);
        }
        assert(rects@ =~= prs);
        assert(svg@ == treemap_svg_doc(prs, total_score(language_stats@)));
    }
    svg
}

/// Sum of all scores of a stats list.
fn sum_scores(entries: &Vec<(String, LanguageStats)>) -> (total: u128)
    requires
        total_score(entries@) < 0x1000000000000000000000000,
    ensures
        total == total_score(entries@),
{
    let mut total: u128 = 0;
    let mut i: usize = 0;
    proof {
        assert(entries@.skip(0) =~= entries@);
    }
    while i < entries.len()
        invariant
            i <= entries@.len(),
            total_score(entries@) < 0x1000000000000000000000000,
            total == total_score(entries@) - total_score(entries@.skip(i as int)),
            total_score(entries@.skip(i as int)) <= total_score(entries@),
            total >= 0,
        decreases entries@.len() - i,
    {
        let ghost rem = entries@.skip(i as int);
        proof {
            assert(rem.first() == entries@[i as int]);
            assert(rem.drop_first() =~= entries@.skip(i as int + 1));
            lemma_total_score_nonneg(rem.drop_first());
        }
        total = total + entries[i].1.bytes;
        i += 1;
    }
    proof {
        assert(entries@.skip(entries@.len() as int) =~= Seq::<(String, LanguageStats)>::empty());
    }
    total
}

} // verus!
