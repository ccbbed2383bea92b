//! Display summaries of the ledger: the output formats of the log
//! command and the per-day totals they are built from.

use vstd::prelude::*;
use crate::data::{TimeData, store_wf, entries_view};
use crate::dates::CalendarDate;
use crate::invoice::{
    bucket_of, day_hours, day_texts, ledger_in_range, lookup_bucket, sorted_store_dates,
    worked_upto,
};
use crate::text::spec_join;

verus! {

/// The available log output formats.
#[derive(Debug, Clone, Copy, PartialEq, Eq, Structural)]
pub enum LogFormat {
    Full,
    Day,
    Month,
    Year,
}

/// One day of the log display: the date, the summed worked hours in
/// ticks, and the `; `-joined descriptions.
#[derive(Debug)]
pub struct SummaryRow {
    pub date: CalendarDate,
    pub hours: i64,
    pub description: String,
}

/// The row for day `i` of the sorted dates.
pub open spec fn summary_row_ok(
    v: Seq<(CalendarDate, Seq<crate::data::EntryView>)>,
    row: SummaryRow,
    i: int,
) -> bool {
    let ds = sorted_store_dates(v);
    let b = bucket_of(v, ds[i]);
    &&& row.date == ds[i]
    &&& row.hours == day_hours(b)
    &&& row.description@ == spec_join(day_texts(b), "; "@)
}

/// One row per date in chronological order, each with its worked hours
/// and joined descriptions, together with the grand total of worked
/// hours.
pub fn day_summary(data: &TimeData) -> (r: (Vec<SummaryRow>, i64))
    requires
        store_wf(data@),
        ledger_in_range(data@),
    ensures
        r.0@.len() == sorted_store_dates(data@).len(),
        forall|i: int|
            0 <= i < r.0@.len() ==> summary_row_ok(data@, #[trigger] r.0@[i], i),
        forall|i: int|
            0 <= i < r.0@.len() ==> -crate::invoice::MAX_TOTAL_VALUE <= (#[trigger] r.0@[i]).hours
                <= crate::invoice::MAX_TOTAL_VALUE,
        r.1 == worked_upto(data@, sorted_store_dates(data@)),
{
    let ghost v = data@;
    let ds = crate::invoice::sorted_dates_exec(data);
    let ghost dsv = ds@;
    let mut rows: Vec<SummaryRow> = Vec::new();
    let mut grand: i64 = 0;
    let mut i: usize = 0;
    proof {
        assert(dsv.subrange(0, 0) =~= Seq::<CalendarDate>::empty());
        crate::invoice::lemma_totals_bounded(v, dsv.subrange(0, 0), 0);
    }
    while i < ds.len()
        invariant
            0 <= i <= dsv.len(),
            v == data@,
            dsv == ds@,
            dsv == sorted_store_dates(v),
            store_wf(v),
            ledger_in_range(v),
            grand == worked_upto(v, dsv.subrange(0, i as int)),
            rows@.len() == i,
            forall|j: int| 0 <= j < i ==> summary_row_ok(v, #[trigger] rows@[j], j),
            forall|j: int|
                0 <= j < i ==> -crate::invoice::MAX_TOTAL_VALUE <= (#[trigger] rows@[j]).hours
                    <= crate::invoice::MAX_TOTAL_VALUE,
        decreases dsv.len() - i,
    {
        let d = ds[i];
        let bucket = lookup_bucket(data, &d, Ghost(dsv), Ghost(i as int));
        let ghost bv = bucket_of(v, d);
        proof {
            assert(bv == entries_view(bucket@));
            assert(crate::invoice::bucket_bounded(bv)) by {
                crate::data::lemma_store_index_of_char(v, d);
            }
            assert(bv.subrange(0, 0) =~= Seq::<crate::data::EntryView>::empty());
            let pre = dsv.subrange(0, i as int);
            let post = dsv.subrange(0, i + 1);
            assert(post.subrange(0, post.len() - 1) =~= pre);
            assert(post[post.len() - 1] == dsv[i as int]);
            crate::invoice::lemma_abs_upto_prefix(v, dsv, i + 1);
            crate::invoice::lemma_totals_bounded(v, pre, 0);
            crate::invoice::lemma_totals_bounded(v, post, 0);
            crate::invoice::lemma_day_sums_bounded(bv);
        }
        let mut day_h: i64 = 0;
        let mut texts: Vec<String> = Vec::new();
        let mut k: usize = 0;
        proof {
            assert(crate::text::views_of(texts@) =~= day_texts(bv.subrange(0, 0)));
        }
        while k < bucket.len()
            invariant
                0 <= k <= bv.len(),
                bv == entries_view(bucket@),
                crate::invoice::bucket_bounded(bv),
                day_h == day_hours(bv.subrange(0, k as int)),
                crate::text::views_of(texts@) == day_texts(bv.subrange(0, k as int)),
                crate::invoice::day_abs(bv) <= crate::invoice::MAX_TOTAL_VALUE,
            decreases bv.len() - k,
        {
            proof {
                let pre = bv.subrange(0, k as int);
                let post = bv.subrange(0, k + 1);
                assert(post.subrange(0, post.len() - 1) =~= pre);
                assert(post[post.len() - 1] == bv[k as int]);
                assert(bv[k as int] == bucket@[k as int]@);
                crate::invoice::lemma_day_sums_bounded(pre);
                crate::invoice::lemma_day_abs_prefix(bv, k + 1);
                crate::invoice::lemma_day_sums_bounded(post);
            }
            let text: String;
            match &bucket[k] {
                crate::data::Entry::Time(h, t) => {
                    day_h = day_h + *h;
                    text = t.clone();
                },
                crate::data::Entry::FixedCost(_, t) => {
                    text = t.clone();
                },
                crate::data::Entry::Note(t) => {
                    text = t.clone();
                },
            }
            proof {
                assert(crate::text::views_of(texts@.push(text)) =~= crate::text::views_of(
                    texts@,
                ).push(text@));
                assert(day_texts(bv.subrange(0, k + 1)) =~= day_texts(
                    bv.subrange(0, k as int),
                ).push(crate::invoice::text_of(bv[k as int])));
            }
            texts.push(text);
            k = k + 1;
        }
        proof {
            assert(bv.subrange(0, bv.len() as int) =~= bv);
        }
        let desc = crate::text::join_all(&texts, "; ");
        rows.push(SummaryRow { date: d, hours: day_h, description: desc });
        grand = grand + day_h;
        i = i + 1;
    }
    proof {
        assert(dsv.subrange(0, dsv.len() as int) =~= dsv);
    }
    (rows, grand)
}

/// One month or year of the log display: the period, the summed
/// worked hours in ticks, and the number of days with entries.
#[derive(Debug)]
pub struct PeriodRow {
    pub year: i32,
    pub month: u32,
    pub hours: i128,
    pub day_count: u64,
}

/// The period-and-totals shape of a period row.
pub open spec fn period_view(s: Seq<PeriodRow>) -> Seq<(i32, u32, int, int)> {
    s.map_values(|p: PeriodRow| (p.year, p.month, p.hours as int, p.day_count as int))
}

/// The dates and hours of summary rows.
pub open spec fn day_pairs(s: Seq<SummaryRow>) -> Seq<(CalendarDate, int)> {
    s.map_values(|r: SummaryRow| (r.date, r.hours as int))
}

/// Index of the row for period `(y, m)`, or `-1`.
pub open spec fn period_key_index(acc: Seq<(i32, u32, int, int)>, y: i32, m: u32) -> int
    decreases acc.len(),
{
    if acc.len() == 0 {
        -1
    } else if acc[0].0 == y && acc[0].1 == m {
        0
    } else {
        let r = period_key_index(acc.subrange(1, acc.len() as int), y, m);
        if r < 0 {
            -1
        } else {
            r + 1
        }
    }
}

/// The grouping with one day of `h` hours added to period `(y, m)`:
/// the period's row accumulates, or a new row opens at the end.
pub open spec fn period_add(acc: Seq<(i32, u32, int, int)>, y: i32, m: u32, h: int) -> Seq<
    (i32, u32, int, int),
> {
    let k = period_key_index(acc, y, m);
    if k < 0 {
        acc.push((y, m, h, 1))
    } else {
        acc.update(k, (y, m, acc[k].2 + h, acc[k].3 + 1))
    }
}

/// Day rows grouped into periods, in order of first appearance: by
/// calendar month, or by year alone (every month keyed zero).
pub open spec fn spec_group_periods(rows: Seq<(CalendarDate, int)>, by_month: bool) -> Seq<
    (i32, u32, int, int),
>
    decreases rows.len(),
{
    if rows.len() == 0 {
        Seq::empty()
    } else {
        let last = rows[rows.len() - 1];
        period_add(
            spec_group_periods(rows.subrange(0, rows.len() - 1), by_month),
            last.0.year,
            if by_month {
                last.0.month
            } else {
                0
            },
            last.1,
        )
    }
}

proof fn lemma_period_key_index_found(acc: Seq<(i32, u32, int, int)>, y: i32, m: u32, at: int)
    requires
        0 <= at < acc.len(),
        acc[at].0 == y && acc[at].1 == m,
        forall|j: int| 0 <= j < at ==> !(acc[j].0 == y && acc[j].1 == m),
    ensures
        period_key_index(acc, y, m) == at,
    decreases at,
{
    if at > 0 {
        let a1 = acc.subrange(1, acc.len() as int);
        assert(forall|j: int| 0 <= j < a1.len() ==> a1[j] == acc[j + 1]);
        lemma_period_key_index_found(a1, y, m, at - 1);
    }
}

proof fn lemma_period_key_index_absent(acc: Seq<(i32, u32, int, int)>, y: i32, m: u32)
    requires
        forall|j: int| 0 <= j < acc.len() ==> !(acc[j].0 == y && acc[j].1 == m),
    ensures
        period_key_index(acc, y, m) == -1,
    decreases acc.len(),
{
    if acc.len() > 0 {
        let a1 = acc.subrange(1, acc.len() as int);
        assert(forall|j: int| 0 <= j < a1.len() ==> a1[j] == acc[j + 1]);
        lemma_period_key_index_absent(a1, y, m);
    }
}

/// Groups the day summary into months (or whole years), keeping the
/// order in which the periods first appear.
pub fn group_periods(rows: &Vec<SummaryRow>, by_month: bool) -> (r: Vec<PeriodRow>)
    requires
        forall|i: int|
            0 <= i < rows@.len() ==> -crate::invoice::MAX_TOTAL_VALUE <= (
            #[trigger] rows@[i]).hours <= crate::invoice::MAX_TOTAL_VALUE,
    ensures
        period_view(r@) == spec_group_periods(day_pairs(rows@), by_month),
{
    let ghost all = day_pairs(rows@);
    let mut out: Vec<PeriodRow> = Vec::new();
    let mut i: usize = 0;
    proof {
        assert(all.subrange(0, 0) =~= Seq::<(CalendarDate, int)>::empty());
        assert(period_view(out@) =~= spec_group_periods(all.subrange(0, 0), by_month));
    }
    while i < rows.len()
        invariant
            0 <= i <= rows@.len(),
            all == day_pairs(rows@),
            forall|q: int|
                0 <= q < rows@.len() ==> -crate::invoice::MAX_TOTAL_VALUE <= (
                #[trigger] rows@[q]).hours <= crate::invoice::MAX_TOTAL_VALUE,
            period_view(out@) == spec_group_periods(all.subrange(0, i as int), by_month),
            forall|k: int|
                0 <= k < out@.len() ==> 0 <= (#[trigger] out@[k]).day_count <= i
                    && -(i as int) * crate::invoice::MAX_TOTAL_VALUE <= out@[k].hours <= (
                i as int) * crate::invoice::MAX_TOTAL_VALUE,
        decreases rows@.len() - i,
    {
        proof {
            let pre = all.subrange(0, i as int);
            let post = all.subrange(0, i + 1);
            assert(post.subrange(0, post.len() - 1) =~= pre);
            assert(post[post.len() - 1] == all[i as int]);
            assert(all[i as int] == (rows@[i as int].date, rows@[i as int].hours as int));
        }
        let y = rows[i].date.year;
        let m: u32 = if by_month {
            rows[i].date.month
        } else {
            0
        };
        let h = rows[i].hours;
        let ghost acc = period_view(out@);
        let mut k: usize = 0;
        let mut found = false;
        while k < out.len() && !found
            invariant
                0 <= k <= out@.len(),
                acc == period_view(out@),
                !found ==> forall|j: int| 0 <= j < k ==> !(acc[j].0 == y && acc[j].1 == m),
                found ==> k > 0 && 0 <= k - 1 < acc.len() && acc[k - 1].0 == y && acc[k
                    - 1].1 == m && (forall|j: int|
                    0 <= j < k - 1 ==> !(acc[j].0 == y && acc[j].1 == m)),
            decreases out@.len() - k,
        {
            proof {
                assert(acc[k as int] == (out@[k as int].year, out@[k as int].month, out@[
                k as int].hours as int, out@[k as int].day_count as int));
            }
            if out[k].year == y && out[k].month == m {
                found = true;
            }
            k = k + 1;
        }
        if found {
            proof {
                lemma_period_key_index_found(acc, y, m, k - 1);
            }
            let slot = out.remove(k - 1);
            let updated = PeriodRow {
                year: y,
                month: m,
                hours: slot.hours + (h as i128),
                day_count: slot.day_count + 1,
            };
            out.insert(k - 1, updated);
            proof {
                assert(period_view(out@) =~= period_add(acc, y, m, h as int));
            }
        } else {
            proof {
                lemma_period_key_index_absent(acc, y, m);
            }
            out.push(PeriodRow { year: y, month: m, hours: h as i128, day_count: 1 });
            proof {
                assert(period_view(out@) =~= period_add(acc, y, m, h as int));
            }
        }
        i = i + 1;
    }
    proof {
        assert(all.subrange(0, all.len() as int) =~= all);
    }
    out
}

} // verus!
