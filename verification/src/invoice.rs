//! The invoice aggregator: walks the ledger store chronologically and
//! computes per-day rows and invoice-level totals under the per-day
//! cap, per-invoice cap, overage and tax rules.

use vstd::prelude::*;
use crate::data::{
    Entry, EntryView, TimeData, store_index_of, store_wf, lemma_store_index_of_char, entries_view,
    MAX_ENTRY_VALUE, TICKS_PER_HOUR,
};
use crate::dates::{
    CalendarDate, date_le, date_valid, spec_add_days, add_days, ADD_DAYS_LIMIT, ADD_YEAR_MARGIN,
    YEAR_LIMIT,
};
use crate::format::spec_format_ticks;
use crate::text::spec_join;

verus! {

/// Largest hourly rate accepted, in money units per hour.
pub const MAX_RATE: i64 = 1_000_000_000_000;

/// Largest tax rate accepted, in units of 1/10000 percent.
pub const MAX_TAX: i64 = 10_000_000;

/// Largest magnitude the aggregator accepts for the sum of all entry
/// values; keeps every product inside 128 bits.
pub const MAX_TOTAL_VALUE: i128 = 1_000_000_000_000_000_000;

/// The external billing parameters of one run: the hourly rate in
/// money units per hour, the two caps in hour ticks (zero or negative
/// disables a cap), the tax rate in units of 1/10000 percent, and the
/// payment term in days.
#[derive(Debug, Clone, Copy)]
pub struct InvoiceConfig {
    pub hourly_rate: i64,
    pub cap_hours_per_day: i64,
    pub cap_hours_per_invoice: i64,
    pub tax_percent: i64,
    pub payment_days: i64,
}

/// The bounds under which the aggregation is exact.
pub open spec fn config_ok(c: InvoiceConfig) -> bool {
    &&& -MAX_RATE <= c.hourly_rate <= MAX_RATE
    &&& -MAX_TOTAL_VALUE <= c.cap_hours_per_day <= MAX_TOTAL_VALUE
    &&& -MAX_TOTAL_VALUE <= c.cap_hours_per_invoice <= MAX_TOTAL_VALUE
    &&& -MAX_TAX <= c.tax_percent <= MAX_TAX
    &&& -ADD_DAYS_LIMIT <= c.payment_days <= ADD_DAYS_LIMIT
}

/// The hour ticks of a time entry; zero for the others.
pub open spec fn hours_of(e: EntryView) -> int {
    match e {
        EntryView::Time { ticks, .. } => ticks,
        _ => 0,
    }
}

/// The positive fixed-cost amount of an entry; zero for the others.
pub open spec fn fee_of(e: EntryView) -> int {
    match e {
        EntryView::FixedCost { amount, .. } => if amount > 0 {
            amount
        } else {
            0
        },
        _ => 0,
    }
}

/// The non-positive fixed-cost amount of an entry; zero for the others.
pub open spec fn discount_of(e: EntryView) -> int {
    match e {
        EntryView::FixedCost { amount, .. } => if amount > 0 {
            0
        } else {
            amount
        },
        _ => 0,
    }
}

/// The magnitude of an entry's value.
pub open spec fn abs_of(e: EntryView) -> int {
    match e {
        EntryView::Time { ticks, .. } => if ticks < 0 {
            -ticks
        } else {
            ticks
        },
        EntryView::FixedCost { amount, .. } => if amount < 0 {
            -amount
        } else {
            amount
        },
        EntryView::Note { .. } => 0,
    }
}

/// The description an entry contributes to its day's display line.
pub open spec fn text_of(e: EntryView) -> Seq<char> {
    match e {
        EntryView::Time { text, .. } => text,
        EntryView::FixedCost { text, .. } => text,
        EntryView::Note { text } => text,
    }
}

/// Sum of the time entries of a bucket, in hour ticks.
pub open spec fn day_hours(b: Seq<EntryView>) -> int
    decreases b.len(),
{
    if b.len() == 0 {
        0
    } else {
        day_hours(b.subrange(0, b.len() - 1)) + hours_of(b[b.len() - 1])
    }
}

/// Sum of the positive fixed costs of a bucket.
pub open spec fn day_fees(b: Seq<EntryView>) -> int
    decreases b.len(),
{
    if b.len() == 0 {
        0
    } else {
        day_fees(b.subrange(0, b.len() - 1)) + fee_of(b[b.len() - 1])
    }
}

/// Sum of the non-positive fixed costs of a bucket.
pub open spec fn day_discounts(b: Seq<EntryView>) -> int
    decreases b.len(),
{
    if b.len() == 0 {
        0
    } else {
        day_discounts(b.subrange(0, b.len() - 1)) + discount_of(b[b.len() - 1])
    }
}

/// Sum of the magnitudes of a bucket's values.
pub open spec fn day_abs(b: Seq<EntryView>) -> int
    decreases b.len(),
{
    if b.len() == 0 {
        0
    } else {
        day_abs(b.subrange(0, b.len() - 1)) + abs_of(b[b.len() - 1])
    }
}

/// The descriptions of a bucket's entries, in order.
pub open spec fn day_texts(b: Seq<EntryView>) -> Seq<Seq<char>> {
    b.map_values(|e: EntryView| text_of(e))
}

/// The magnitude sums are non-negative, and the three value sums stay
/// within them.
pub proof fn lemma_day_sums_bounded(b: Seq<EntryView>)
    ensures
        day_abs(b) >= 0,
        -day_abs(b) <= day_hours(b) <= day_abs(b),
        0 <= day_fees(b) <= day_abs(b),
        -day_abs(b) <= day_discounts(b) <= 0,
    decreases b.len(),
{
    if b.len() > 0 {
        lemma_day_sums_bounded(b.subrange(0, b.len() - 1));
    }
}

/// Every prefix of a bucket weighs at most the whole bucket.
pub proof fn lemma_day_abs_prefix(b: Seq<EntryView>, j: int)
    requires
        0 <= j <= b.len(),
    ensures
        day_abs(b.subrange(0, j)) <= day_abs(b),
    decreases b.len() - j,
{
    if j == b.len() {
        assert(b.subrange(0, j) =~= b);
    } else {
        lemma_day_abs_prefix(b, j + 1);
        let p = b.subrange(0, j + 1);
        assert(p.subrange(0, p.len() - 1) =~= b.subrange(0, j));
        assert(p[p.len() - 1] == b[j]);
        lemma_day_sums_bounded(b.subrange(0, j));
        assert(abs_of(b[j]) >= 0) by {
            lemma_day_sums_bounded(seq![b[j]]);
            assert(seq![b[j]].subrange(0, 0) =~= Seq::<EntryView>::empty());
        }
    }
}

/// `x` placed into `v` before the first date it precedes or equals.
pub open spec fn insert_date(v: Seq<CalendarDate>, x: CalendarDate) -> Seq<CalendarDate>
    decreases v.len(),
{
    if v.len() == 0 {
        seq![x]
    } else if date_le(x, v[0]) {
        seq![x] + v
    } else {
        seq![v[0]] + insert_date(v.subrange(1, v.len() as int), x)
    }
}

/// The dates of `s` in ascending order, by insertion.
pub open spec fn sort_dates_spec(s: Seq<CalendarDate>) -> Seq<CalendarDate>
    decreases s.len(),
{
    if s.len() == 0 {
        Seq::empty()
    } else {
        insert_date(sort_dates_spec(s.subrange(0, s.len() - 1)), s[s.len() - 1])
    }
}

proof fn lemma_insert_date_len(v: Seq<CalendarDate>, x: CalendarDate)
    ensures
        insert_date(v, x).len() == v.len() + 1,
    decreases v.len(),
{
    if v.len() > 0 && !date_le(x, v[0]) {
        lemma_insert_date_len(v.subrange(1, v.len() as int), x);
    }
}

/// The sort keeps the number of dates.
pub proof fn lemma_sort_dates_len(s: Seq<CalendarDate>)
    ensures
        sort_dates_spec(s).len() == s.len(),
    decreases s.len(),
{
    if s.len() > 0 {
        lemma_sort_dates_len(s.subrange(0, s.len() - 1));
        lemma_insert_date_len(sort_dates_spec(s.subrange(0, s.len() - 1)), s[s.len() - 1]);
    }
}

proof fn lemma_insert_date_elems(v: Seq<CalendarDate>, x: CalendarDate, k: int)
    requires
        0 <= k < insert_date(v, x).len(),
    ensures
        insert_date(v, x)[k] == x || v.contains(insert_date(v, x)[k]),
    decreases v.len(),
{
    lemma_insert_date_len(v, x);
    let w = insert_date(v, x);
    if v.len() > 0 && !date_le(x, v[0]) {
        let v1 = v.subrange(1, v.len() as int);
        let w1 = insert_date(v1, x);
        if k > 0 {
            lemma_insert_date_elems(v1, x, k - 1);
            assert(w[k] == w1[k - 1]);
            if w1[k - 1] != x {
                let j = choose|j: int| 0 <= j < v1.len() && v1[j] == w1[k - 1];
                assert(v[j + 1] == w[k]);
            }
        }
    } else if v.len() > 0 {
        if k > 0 {
            assert(w[k] == v[k - 1]);
        }
    }
}

/// Every sorted date comes from the input.
pub proof fn lemma_sort_dates_elems(s: Seq<CalendarDate>, k: int)
    requires
        0 <= k < sort_dates_spec(s).len(),
    ensures
        s.contains(sort_dates_spec(s)[k]),
    decreases s.len(),
{
    lemma_sort_dates_len(s);
    let s0 = s.subrange(0, s.len() - 1);
    lemma_sort_dates_len(s0);
    lemma_insert_date_elems(sort_dates_spec(s0), s[s.len() - 1], k);
    let d = sort_dates_spec(s)[k];
    if d == s[s.len() - 1] {
        assert(s.contains(d));
    } else {
        let j = choose|j: int| 0 <= j < sort_dates_spec(s0).len() && sort_dates_spec(s0)[j] == d;
        lemma_sort_dates_elems(s0, j);
        let q = choose|q: int| 0 <= q < s0.len() && s0[q] == d;
        assert(s[q] == d);
    }
}

/// Where `insert_date` places the new date, given the scan that found
/// its position.
proof fn lemma_insert_date_position(w: Seq<CalendarDate>, x: CalendarDate, k: int)
    requires
        0 <= k <= w.len(),
        forall|j: int| 0 <= j < k ==> !date_le(x, w[j]),
        k < w.len() ==> date_le(x, w[k]),
    ensures
        insert_date(w, x) == w.subrange(0, k) + seq![x] + w.subrange(k, w.len() as int),
    decreases k,
{
    if k == 0 {
        if w.len() == 0 {
            assert(insert_date(w, x) =~= w.subrange(0, 0) + seq![x] + w.subrange(0, 0));
        } else {
            assert(insert_date(w, x) =~= w.subrange(0, 0) + seq![x] + w.subrange(
                0,
                w.len() as int,
            ));
        }
    } else {
        let w1 = w.subrange(1, w.len() as int);
        assert(forall|j: int| 0 <= j < w1.len() ==> w1[j] == w[j + 1]);
        lemma_insert_date_position(w1, x, k - 1);
        assert(insert_date(w, x) =~= w.subrange(0, k) + seq![x] + w.subrange(k, w.len() as int));
    }
}

/// Inserts a date into an ascending vector at the position the
/// insertion sort gives it.
fn insert_date_exec(v: Vec<CalendarDate>, x: CalendarDate) -> (r: Vec<CalendarDate>)
    ensures
        r@ == insert_date(v@, x),
{
    let mut v = v;
    let ghost pre = v@;
    let mut k: usize = 0;
    while k < v.len() && !x.le(&v[k])
        invariant
            0 <= k <= v@.len(),
            pre == v@,
            forall|j: int| 0 <= j < k ==> !date_le(x, pre[j]),
        decreases v@.len() - k,
    {
        k = k + 1;
    }
    proof {
        lemma_insert_date_position(pre, x, k as int);
    }
    v.insert(k, x);
    proof {
        assert(v@ =~= pre.subrange(0, k as int) + seq![x] + pre.subrange(
            k as int,
            pre.len() as int,
        ));
    }
    v
}

/// The dates of the store, in store order.
pub open spec fn store_dates(v: Seq<(CalendarDate, Seq<EntryView>)>) -> Seq<CalendarDate> {
    v.map_values(|p: (CalendarDate, Seq<EntryView>)| p.0)
}

/// The bucket the store holds for `d`; empty if the date is absent.
pub open spec fn bucket_of(v: Seq<(CalendarDate, Seq<EntryView>)>, d: CalendarDate) -> Seq<
    EntryView,
> {
    if store_index_of(v, d) >= 0 {
        v[store_index_of(v, d)].1
    } else {
        Seq::empty()
    }
}

/// Billed hours of one day: worked hours, unless a positive cap lies
/// below them.
pub open spec fn billed_day(h: int, cap: int) -> int {
    if cap > 0 && h > 0 && h > cap {
        cap
    } else {
        h
    }
}

/// Total worked hour ticks over the days of `ds`, uncapped.
pub open spec fn worked_upto(
    v: Seq<(CalendarDate, Seq<EntryView>)>,
    ds: Seq<CalendarDate>,
) -> int
    decreases ds.len(),
{
    if ds.len() == 0 {
        0
    } else {
        worked_upto(v, ds.subrange(0, ds.len() - 1)) + day_hours(bucket_of(v, ds[ds.len() - 1]))
    }
}

/// Total counted hour ticks over the days of `ds`: each day capped.
pub open spec fn counted_upto(
    v: Seq<(CalendarDate, Seq<EntryView>)>,
    ds: Seq<CalendarDate>,
    cap: int,
) -> int
    decreases ds.len(),
{
    if ds.len() == 0 {
        0
    } else {
        counted_upto(v, ds.subrange(0, ds.len() - 1), cap) + billed_day(
            day_hours(bucket_of(v, ds[ds.len() - 1])),
            cap,
        )
    }
}

/// Total positive fixed costs over the days of `ds`.
pub open spec fn fees_upto(v: Seq<(CalendarDate, Seq<EntryView>)>, ds: Seq<CalendarDate>) -> int
    decreases ds.len(),
{
    if ds.len() == 0 {
        0
    } else {
        fees_upto(v, ds.subrange(0, ds.len() - 1)) + day_fees(bucket_of(v, ds[ds.len() - 1]))
    }
}

/// Total non-positive fixed costs over the days of `ds`.
pub open spec fn discounts_upto(
    v: Seq<(CalendarDate, Seq<EntryView>)>,
    ds: Seq<CalendarDate>,
) -> int
    decreases ds.len(),
{
    if ds.len() == 0 {
        0
    } else {
        discounts_upto(v, ds.subrange(0, ds.len() - 1)) + day_discounts(
            bucket_of(v, ds[ds.len() - 1]),
        )
    }
}

/// Total entry magnitude over the days of `ds`.
pub open spec fn abs_upto(v: Seq<(CalendarDate, Seq<EntryView>)>, ds: Seq<CalendarDate>) -> int
    decreases ds.len(),
{
    if ds.len() == 0 {
        0
    } else {
        abs_upto(v, ds.subrange(0, ds.len() - 1)) + day_abs(bucket_of(v, ds[ds.len() - 1]))
    }
}

/// The running totals stay within the running magnitude.
pub proof fn lemma_totals_bounded(v: Seq<(CalendarDate, Seq<EntryView>)>, ds: Seq<CalendarDate>, cap: int)
    ensures
        abs_upto(v, ds) >= 0,
        -abs_upto(v, ds) <= worked_upto(v, ds) <= abs_upto(v, ds),
        -abs_upto(v, ds) <= counted_upto(v, ds, cap) <= abs_upto(v, ds),
        0 <= fees_upto(v, ds) <= abs_upto(v, ds),
        -abs_upto(v, ds) <= discounts_upto(v, ds) <= 0,
    decreases ds.len(),
{
    if ds.len() > 0 {
        lemma_totals_bounded(v, ds.subrange(0, ds.len() - 1), cap);
        lemma_day_sums_bounded(bucket_of(v, ds[ds.len() - 1]));
    }
}

/// Every prefix of the magnitude total weighs at most the whole.
pub proof fn lemma_abs_upto_prefix(
    v: Seq<(CalendarDate, Seq<EntryView>)>,
    ds: Seq<CalendarDate>,
    j: int,
)
    requires
        0 <= j <= ds.len(),
    ensures
        abs_upto(v, ds.subrange(0, j)) <= abs_upto(v, ds),
    decreases ds.len() - j,
{
    if j == ds.len() {
        assert(ds.subrange(0, j) =~= ds);
    } else {
        lemma_abs_upto_prefix(v, ds, j + 1);
        let p = ds.subrange(0, j + 1);
        assert(p.subrange(0, p.len() - 1) =~= ds.subrange(0, j));
        assert(p[p.len() - 1] == ds[j]);
        lemma_day_sums_bounded(bucket_of(v, ds[j]));
    }
}

/// Truncating division toward zero, for a positive divisor.
pub open spec fn div_trunc(a: int, b: int) -> int {
    if a >= 0 {
        a / b
    } else {
        -((-a) / b)
    }
}

/// `a * b / d`, truncating toward zero.
fn mul_div(a: i128, b: i128, d: i128) -> (r: i128)
    requires
        0 < d <= 1_000_000,
        -100_000_000_000_000_000_000_000_000 <= a <= 100_000_000_000_000_000_000_000_000,
        -1_000_000_000_000 <= b <= 1_000_000_000_000,
    ensures
        r as int == div_trunc(a as int * b as int, d as int),
{
    let neg = (a < 0) != (b < 0);
    let aa: u128 = if a < 0 {
        (-a) as u128
    } else {
        a as u128
    };
    let bb: u128 = if b < 0 {
        (-b) as u128
    } else {
        b as u128
    };
    proof {
        assert(aa * bb <= 100_000_000_000_000_000_000_000_000 * 1_000_000_000_000) by (nonlinear_arith)
            requires
                0 <= aa <= 100_000_000_000_000_000_000_000_000,
                0 <= bb <= 1_000_000_000_000,
        ;
        if !neg {
            assert((a as int) * (b as int) == (aa as int) * (bb as int)) by (nonlinear_arith)
                requires
                    (a >= 0 && b >= 0 && aa == a && bb == b) || (a < 0 && b < 0 && aa == -(a as int)
                        && bb == -(b as int)),
            ;
        } else {
            assert((a as int) * (b as int) == -((aa as int) * (bb as int))) by (nonlinear_arith)
                requires
                    (a >= 0 && b < 0 && aa == a && bb == -(b as int)) || (a < 0 && b >= 0 && aa
                        == -(a as int) && bb == b),
            ;
        }
    }
    let prod = aa * bb;
    let q = prod / (d as u128);
    proof {
        assert(q <= prod);
        lemma_div_trunc_signs(a as int, b as int, aa as int, bb as int, d as int);
    }
    if neg {
        -(q as i128)
    } else {
        q as i128
    }
}

/// The magnitude of a truncating division of a bounded product.
pub proof fn lemma_div_trunc_bound(x: int, d: int, m: int)
    requires
        d > 0,
        0 <= m,
        -m <= x <= m,
    ensures
        -(m / d) <= div_trunc(x, d) <= m / d,
{
    if x >= 0 {
        vstd::arithmetic::div_mod::lemma_div_is_ordered(x, m, d);
        vstd::arithmetic::div_mod::lemma_div_pos_is_pos(x, d);
    } else {
        vstd::arithmetic::div_mod::lemma_div_is_ordered(-x, m, d);
        vstd::arithmetic::div_mod::lemma_div_pos_is_pos(-x, d);
    }
}

/// Truncating division splits into sign and magnitude.
proof fn lemma_div_trunc_signs(a: int, b: int, aa: int, bb: int, d: int)
    requires
        d > 0,
        aa >= 0,
        bb >= 0,
        a * b == aa * bb || a * b == -(aa * bb),
    ensures
        a * b == aa * bb ==> div_trunc(a * b, d) == (aa * bb) / d,
        a * b == -(aa * bb) ==> div_trunc(a * b, d) == -((aa * bb) / d),
{
    assert(aa * bb >= 0) by (nonlinear_arith)
        requires
            aa >= 0,
            bb >= 0,
    ;
    if a * b == -(aa * bb) && a * b >= 0 {
        assert(aa * bb == 0);
    }
}

/// An entry the aggregation can carry without overflow.
pub open spec fn bucket_bounded(b: Seq<EntryView>) -> bool {
    forall|i: int| 0 <= i < b.len() ==> abs_of(#[trigger] b[i]) <= MAX_ENTRY_VALUE
}

/// Every entry of the store is within the per-entry bound.
pub open spec fn store_bounded(v: Seq<(CalendarDate, Seq<EntryView>)>) -> bool {
    forall|i: int| 0 <= i < v.len() ==> bucket_bounded(#[trigger] v[i].1)
}

/// The store's dates in ascending order.
pub open spec fn sorted_store_dates(v: Seq<(CalendarDate, Seq<EntryView>)>) -> Seq<CalendarDate> {
    sort_dates_spec(store_dates(v))
}

/// A ledger whose entries and totals the aggregation can carry
/// exactly.
pub open spec fn ledger_in_range(v: Seq<(CalendarDate, Seq<EntryView>)>) -> bool {
    store_bounded(v) && abs_upto(v, sorted_store_dates(v)) <= MAX_TOTAL_VALUE
}

/// An invoice date far enough from the supported year span's ends for
/// the due-date computation.
pub open spec fn today_in_span(d: CalendarDate) -> bool {
    ADD_YEAR_MARGIN <= d.year <= YEAR_LIMIT - ADD_YEAR_MARGIN
}

/// One day's display row: its 1-based position, date, billed hours,
/// cost at the hourly rate, and joined descriptions (annotated when the
/// per-day cap trimmed the hours).
#[derive(Debug)]
pub struct DayRow {
    pub index: usize,
    pub date: CalendarDate,
    pub hours: i64,
    pub cost: i128,
    pub description: String,
}

/// The figures of one invoice run, derived once and never mutated.
#[derive(Debug)]
pub struct InvoiceTotals {
    pub days: Vec<DayRow>,
    pub total_hours_worked: i64,
    pub total_hours_counted: i64,
    pub total_hours_billed: i64,
    pub counted_amount: i128,
    pub billed_amount: i128,
    pub total_fixed_fees: i128,
    pub total_discounts: i128,
    pub overage_hours: i64,
    pub overage_discount: i128,
    pub subtotal_amount: i128,
    pub tax_amount: i128,
    pub total_amount: i128,
    pub period_start: CalendarDate,
    pub period_end: CalendarDate,
    pub invoice_date: CalendarDate,
    pub due_date: CalendarDate,
}

/// A day's display line: all descriptions joined by `; `, annotated
/// with worked-versus-billed hours when the per-day cap trimmed them.
pub open spec fn day_desc(b: Seq<EntryView>, cap: int) -> Seq<char> {
    let base = spec_join(day_texts(b), "; "@);
    let h = day_hours(b);
    if cap > 0 && h > 0 && h > cap {
        base + " ("@ + spec_format_ticks(h) + " worked, "@ + spec_format_ticks(cap) + " billed)"@
    } else {
        base
    }
}

/// The row for day `i` of the sorted dates carries that day's billed
/// hours, cost and annotated description.
pub open spec fn day_row_ok(
    v: Seq<(CalendarDate, Seq<EntryView>)>,
    c: InvoiceConfig,
    row: DayRow,
    i: int,
) -> bool {
    let ds = sorted_store_dates(v);
    let b = bucket_of(v, ds[i]);
    let bh = billed_day(day_hours(b), c.cap_hours_per_day as int);
    &&& row.index == i + 1
    &&& row.date == ds[i]
    &&& row.hours == bh
    &&& row.cost == div_trunc(bh * (c.hourly_rate as int), TICKS_PER_HOUR as int)
    &&& row.description@ == day_desc(b, c.cap_hours_per_day as int)
}

/// What the figures of a run must be: exactly the capping, overage and
/// tax arithmetic of the specification, over the chronologically
/// sorted store.
pub open spec fn invoice_ok(
    v: Seq<(CalendarDate, Seq<EntryView>)>,
    c: InvoiceConfig,
    today: CalendarDate,
    t: InvoiceTotals,
) -> bool {
    let ds = sorted_store_dates(v);
    let rate = c.hourly_rate as int;
    let w = worked_upto(v, ds);
    let cnt = counted_upto(v, ds, c.cap_hours_per_day as int);
    let fees = fees_upto(v, ds);
    let discounts = discounts_upto(v, ds);
    let over: int = if c.cap_hours_per_invoice > 0 && cnt > c.cap_hours_per_invoice {
        cnt - c.cap_hours_per_invoice
    } else {
        0
    };
    let billed = cnt - over;
    let subtotal = div_trunc(billed * rate, TICKS_PER_HOUR as int) + fees + discounts;
    &&& t.days@.len() == ds.len()
    &&& forall|i: int| 0 <= i < ds.len() ==> day_row_ok(v, c, #[trigger] t.days@[i], i)
    &&& t.total_hours_worked == w
    &&& t.total_hours_counted == cnt
    &&& t.total_hours_billed == billed
    &&& t.counted_amount == div_trunc(cnt * rate, TICKS_PER_HOUR as int)
    &&& t.billed_amount == div_trunc(billed * rate, TICKS_PER_HOUR as int)
    &&& t.total_fixed_fees == fees
    &&& t.total_discounts == discounts
    &&& t.overage_hours == over
    &&& t.overage_discount == -div_trunc(over * rate, TICKS_PER_HOUR as int)
    &&& t.subtotal_amount == subtotal
    &&& t.tax_amount == div_trunc(subtotal * (c.tax_percent as int), 1_000_000)
    &&& t.total_amount == subtotal + div_trunc(subtotal * (c.tax_percent as int), 1_000_000)
    &&& t.period_start == (if ds.len() > 0 {
        ds[0]
    } else {
        today
    })
    &&& t.period_end == (if ds.len() > 0 {
        ds[ds.len() - 1]
    } else {
        today
    })
    &&& t.invoice_date == today
    &&& t.due_date == spec_add_days(today, c.payment_days as int)
}

/// Two time entries on one date always sum exactly, whatever their
/// signs: appending a time entry to a day's bucket adds exactly its
/// ticks to that day's hours.
pub proof fn lemma_time_entries_sum(b: Seq<EntryView>, h: int, text: Seq<char>)
    ensures
        day_hours(b.push(EntryView::Time { ticks: h, text })) == day_hours(b) + h,
{
    let w = b.push(EntryView::Time { ticks: h, text });
    assert(w.subrange(0, w.len() - 1) =~= b);
}

/// In particular a day holding exactly `Time(h1)` and `Time(h2)`
/// counts `h1 + h2` worked hours.
pub proof fn lemma_time_pair_sum(h1: int, h2: int, t1: Seq<char>, t2: Seq<char>)
    ensures
        day_hours(
            seq![EntryView::Time { ticks: h1, text: t1 }, EntryView::Time { ticks: h2, text: t2 }],
        ) == h1 + h2,
{
    let e1 = EntryView::Time { ticks: h1, text: t1 };
    let e2 = EntryView::Time { ticks: h2, text: t2 };
    let b = seq![e1, e2];
    assert(b.len() == 2 && b[0] == e1 && b[1] == e2);
    let b1 = b.subrange(0, 1);
    assert(b1.len() == 1 && b1[0] == e1);
    assert(b1.subrange(0, 0) =~= Seq::<EntryView>::empty());
    assert(day_hours(b1) == day_hours(b1.subrange(0, 0)) + hours_of(e1));
    assert(b.subrange(0, b.len() - 1) =~= b1);
    assert(day_hours(b) == day_hours(b1) + hours_of(e2));
}

/// The per-day cap: a day worked beyond a positive cap is billed
/// exactly the cap, while the worked total still carries the uncapped
/// hours. Stated over a one-day ledger.
pub proof fn lemma_per_day_cap(v: Seq<(CalendarDate, Seq<EntryView>)>, cap: int)
    requires
        sorted_store_dates(v).len() == 1,
        cap > 0,
        day_hours(bucket_of(v, sorted_store_dates(v)[0])) > cap,
    ensures
        counted_upto(v, sorted_store_dates(v), cap) == cap,
        worked_upto(v, sorted_store_dates(v)) == day_hours(
            bucket_of(v, sorted_store_dates(v)[0]),
        ),
{
    let ds = sorted_store_dates(v);
    let h = day_hours(bucket_of(v, ds[0]));
    assert(ds.subrange(0, ds.len() - 1) =~= Seq::<CalendarDate>::empty());
    assert(ds[ds.len() - 1] == ds[0]);
    assert(counted_upto(v, ds, cap) == counted_upto(v, ds.subrange(0, ds.len() - 1), cap)
        + billed_day(h, cap));
    assert(counted_upto(v, ds.subrange(0, ds.len() - 1), cap) == 0);
    assert(billed_day(h, cap) == cap);
    assert(worked_upto(v, ds) == worked_upto(v, ds.subrange(0, ds.len() - 1)) + h);
    assert(worked_upto(v, ds.subrange(0, ds.len() - 1)) == 0);
}

/// The per-invoice cap: whenever the counted hours exceed a positive
/// cap, the overage is exactly the excess, the overage discount is
/// exactly its negated cost, and the billed hours are exactly the cap.
pub proof fn lemma_invoice_overage(
    v: Seq<(CalendarDate, Seq<EntryView>)>,
    c: InvoiceConfig,
    today: CalendarDate,
    t: InvoiceTotals,
)
    requires
        invoice_ok(v, c, today, t),
        c.cap_hours_per_invoice > 0,
        t.total_hours_counted > c.cap_hours_per_invoice,
    ensures
        t.overage_hours == t.total_hours_counted - c.cap_hours_per_invoice,
        t.total_hours_billed == c.cap_hours_per_invoice,
        t.overage_discount == -div_trunc(
            t.overage_hours * (c.hourly_rate as int),
            TICKS_PER_HOUR as int,
        ),
{
}

/// The store's dates in ascending order, ready to walk.
pub fn sorted_dates_exec(data: &TimeData) -> (ds: Vec<CalendarDate>)
    ensures
        ds@ == sorted_store_dates(data@),
{
    let ghost v = data@;
    let mut ds: Vec<CalendarDate> = Vec::new();
    let mut di: usize = 0;
    proof {
        assert(store_dates(v).subrange(0, 0) =~= Seq::<CalendarDate>::empty());
        assert(ds@ =~= sort_dates_spec(store_dates(v).subrange(0, 0)));
    }
    while di < data.entries.len()
        invariant
            0 <= di <= data.entries@.len(),
            v == data@,
            ds@ == sort_dates_spec(store_dates(v).subrange(0, di as int)),
        decreases data.entries@.len() - di,
    {
        proof {
            let pre = store_dates(v).subrange(0, di as int);
            let post = store_dates(v).subrange(0, di + 1);
            assert(post.subrange(0, post.len() - 1) =~= pre);
            assert(post[post.len() - 1] == store_dates(v)[di as int]);
            assert(store_dates(v)[di as int] == data.entries@[di as int].0);
        }
        ds = insert_date_exec(ds, data.entries[di].0);
        di = di + 1;
    }
    proof {
        assert(store_dates(v).subrange(0, v.len() as int) =~= store_dates(v));
    }
    ds
}

/// Finds the bucket the sorted date list points at; the date always
/// has one, because the sorted dates come from the store itself.
pub fn lookup_bucket<'a>(data: &'a TimeData, d: &CalendarDate, Ghost(ds): Ghost<Seq<CalendarDate>>, Ghost(i): Ghost<int>) -> (b: &'a Vec<Entry>)
    requires
        ds == sorted_store_dates(data@),
        0 <= i < ds.len(),
        *d == ds[i],
    ensures
        entries_view(b@) == bucket_of(data@, *d),
        store_index_of(data@, *d) >= 0,
{
    proof {
        lemma_sort_dates_elems(store_dates(data@), i);
        let q = choose|q: int|
            0 <= q < store_dates(data@).len() && store_dates(data@)[q] == ds[i];
        assert(data@[q].0 == *d);
        lemma_store_index_of_char(data@, *d);
    }
    match data.get(d) {
        Some(b) => b,
        None => {
            proof {
                assert(false);
            }
            loop
                invariant
                    false,
                decreases 0int,
            {
            }
        },
    }
}

/// Decides whether the ledger's entries and totals fit the fixed-point
/// arithmetic, so that callers can establish what the summary and
/// aggregation functions require.
pub fn ledger_within_range(data: &TimeData) -> (b: bool)
    requires
        store_wf(data@),
    ensures
        b == ledger_in_range(data@),
{
    let ghost v = data@;
    let mut bi: usize = 0;
    while bi < data.entries.len()
        invariant
            0 <= bi <= data.entries@.len(),
            v == data@,
            forall|j: int| 0 <= j < bi ==> bucket_bounded(#[trigger] v[j].1),
        decreases data.entries@.len() - bi,
    {
        let bucket = &data.entries[bi].1;
        proof {
            assert(v[bi as int].1 == entries_view(bucket@));
        }
        let mut ei: usize = 0;
        while ei < bucket.len()
            invariant
                0 <= ei <= bucket@.len(),
                v == data@,
                0 <= bi < data.entries@.len(),
                bucket == &data.entries@[bi as int].1,
                v[bi as int].1 == entries_view(bucket@),
                forall|k: int|
                    0 <= k < ei ==> abs_of(#[trigger] entries_view(bucket@)[k])
                        <= MAX_ENTRY_VALUE,
            decreases bucket@.len() - ei,
        {
            proof {
                assert(entries_view(bucket@)[ei as int] == bucket@[ei as int]@);
            }
            let bad = match &bucket[ei] {
                Entry::Time(h, _) => *h < -MAX_ENTRY_VALUE || *h > MAX_ENTRY_VALUE,
                Entry::FixedCost(c, _) => *c < -MAX_ENTRY_VALUE || *c > MAX_ENTRY_VALUE,
                Entry::Note(_) => false,
            };
            if bad {
                proof {
                    assert(abs_of(v[bi as int].1[ei as int]) > MAX_ENTRY_VALUE);
                    assert(!bucket_bounded(v[bi as int].1));
                }
                return false;
            }
            ei = ei + 1;
        }
        bi = bi + 1;
    }
    proof {
        assert(store_bounded(v));
    }
    let mut ds: Vec<CalendarDate> = Vec::new();
    let mut di: usize = 0;
    proof {
        assert(store_dates(v).subrange(0, 0) =~= Seq::<CalendarDate>::empty());
        assert(ds@ =~= sort_dates_spec(store_dates(v).subrange(0, 0)));
    }
    while di < data.entries.len()
        invariant
            0 <= di <= data.entries@.len(),
            v == data@,
            ds@ == sort_dates_spec(store_dates(v).subrange(0, di as int)),
        decreases data.entries@.len() - di,
    {
        proof {
            let pre = store_dates(v).subrange(0, di as int);
            let post = store_dates(v).subrange(0, di + 1);
            assert(post.subrange(0, post.len() - 1) =~= pre);
            assert(post[post.len() - 1] == store_dates(v)[di as int]);
            assert(store_dates(v)[di as int] == data.entries@[di as int].0);
        }
        ds = insert_date_exec(ds, data.entries[di].0);
        di = di + 1;
    }
    proof {
        assert(store_dates(v).subrange(0, v.len() as int) =~= store_dates(v));
        assert(ds@ == sorted_store_dates(v));
    }
    let ghost dsv = ds@;
    let mut total_abs: i128 = 0;
    let mut i: usize = 0;
    proof {
        assert(dsv.subrange(0, 0) =~= Seq::<CalendarDate>::empty());
    }
    while i < ds.len()
        invariant
            0 <= i <= dsv.len(),
            v == data@,
            dsv == ds@,
            dsv == sorted_store_dates(v),
            store_bounded(v),
            total_abs == abs_upto(v, dsv.subrange(0, i as int)),
            0 <= total_abs <= MAX_TOTAL_VALUE,
        decreases dsv.len() - i,
    {
        let d = ds[i];
        let bucket = lookup_bucket(data, &d, Ghost(dsv), Ghost(i as int));
        let ghost bv = bucket_of(v, d);
        proof {
            assert(bv == entries_view(bucket@));
            assert(bucket_bounded(bv)) by {
                lemma_store_index_of_char(v, d);
            }
            assert(day_abs(bv.subrange(0, 0)) == 0) by {
                assert(bv.subrange(0, 0) =~= Seq::<EntryView>::empty());
            }
        }
        let mut day_total: i128 = 0;
        let mut k: usize = 0;
        while k < bucket.len()
            invariant
                0 <= k <= bv.len(),
                bv == entries_view(bucket@),
                bucket_bounded(bv),
                day_total == day_abs(bv.subrange(0, k as int)),
                0 <= day_total <= (k as int) * (MAX_ENTRY_VALUE as int),
            decreases bv.len() - k,
        {
            proof {
                let pre = bv.subrange(0, k as int);
                let post = bv.subrange(0, k + 1);
                assert(post.subrange(0, post.len() - 1) =~= pre);
                assert(post[post.len() - 1] == bv[k as int]);
                assert(bv[k as int] == bucket@[k as int]@);
                assert(abs_of(bv[k as int]) <= MAX_ENTRY_VALUE);
            }
            let a: i64 = match &bucket[k] {
                Entry::Time(h, _) => if *h < 0 {
                    -*h
                } else {
                    *h
                },
                Entry::FixedCost(c, _) => if *c < 0 {
                    -*c
                } else {
                    *c
                },
                Entry::Note(_) => 0,
            };
            day_total = day_total + (a as i128);
            k = k + 1;
        }
        proof {
            assert(bv.subrange(0, bv.len() as int) =~= bv);
            let pre = dsv.subrange(0, i as int);
            let post = dsv.subrange(0, i + 1);
            assert(post.subrange(0, post.len() - 1) =~= pre);
            assert(post[post.len() - 1] == dsv[i as int]);
        }
        if day_total > MAX_TOTAL_VALUE - total_abs {
            proof {
                lemma_abs_upto_prefix(v, dsv, i + 1);
            }
            return false;
        }
        total_abs = total_abs + day_total;
        i = i + 1;
    }
    proof {
        assert(dsv.subrange(0, dsv.len() as int) =~= dsv);
    }
    true
}

/// Walks the store's days in chronological order and computes the
/// per-day rows and the invoice totals under the capping, overage and
/// tax rules. Rejected are only inputs whose figures would not fit the
/// fixed-point arithmetic: each error names the offending side, and for
/// accepted inputs every figure is exactly the one the rules give.
pub fn compute_invoice(data: &TimeData, config: &InvoiceConfig, today: CalendarDate) -> (r:
    Result<InvoiceTotals, String>)
    requires
        store_wf(data@),
        date_valid(today),
    ensures
        !config_ok(*config) ==> (r matches Err(m) && m@ == "Configuration out of range"@),
        config_ok(*config) && !today_in_span(today) ==> (r matches Err(m) && m@
            == "Invoice date out of range"@),
        config_ok(*config) && today_in_span(today) && !ledger_in_range(data@) ==> (r matches Err(m)
            && m@ == "Ledger totals out of range"@),
        config_ok(*config) && today_in_span(today) && ledger_in_range(data@) ==> (r matches Ok(t)
            && invoice_ok(data@, *config, today, t)),
{
    let ghost v = data@;
    if !(-MAX_RATE <= config.hourly_rate && config.hourly_rate <= MAX_RATE
        && -1_000_000_000_000_000_000i64 <= config.cap_hours_per_day
        && config.cap_hours_per_day <= 1_000_000_000_000_000_000i64
        && -1_000_000_000_000_000_000i64 <= config.cap_hours_per_invoice
        && config.cap_hours_per_invoice <= 1_000_000_000_000_000_000i64
        && -MAX_TAX <= config.tax_percent && config.tax_percent <= MAX_TAX
        && -ADD_DAYS_LIMIT <= config.payment_days && config.payment_days <= ADD_DAYS_LIMIT) {
        return Err("Configuration out of range".to_owned());
    }
    if !(ADD_YEAR_MARGIN <= today.year && today.year <= YEAR_LIMIT - ADD_YEAR_MARGIN) {
        return Err("Invoice date out of range".to_owned());
    }
    // Every entry must fit the per-entry bound.
    let mut bi: usize = 0;
    while bi < data.entries.len()
        invariant
            0 <= bi <= data.entries@.len(),
            v == data@,
            config_ok(*config),
            today_in_span(today),
            forall|j: int| 0 <= j < bi ==> bucket_bounded(#[trigger] v[j].1),
        decreases data.entries@.len() - bi,
    {
        let bucket = &data.entries[bi].1;
        proof {
            assert(v[bi as int].1 == entries_view(bucket@));
        }
        let mut ei: usize = 0;
        while ei < bucket.len()
            invariant
                0 <= ei <= bucket@.len(),
                v == data@,
                config_ok(*config),
                today_in_span(today),
                0 <= bi < data.entries@.len(),
                bucket == &data.entries@[bi as int].1,
                v[bi as int].1 == entries_view(bucket@),
                forall|k: int|
                    0 <= k < ei ==> abs_of(#[trigger] entries_view(bucket@)[k])
                        <= MAX_ENTRY_VALUE,
            decreases bucket@.len() - ei,
        {
            proof {
                assert(entries_view(bucket@)[ei as int] == bucket@[ei as int]@);
            }
            let bad = match &bucket[ei] {
                Entry::Time(h, _) => *h < -MAX_ENTRY_VALUE || *h > MAX_ENTRY_VALUE,
                Entry::FixedCost(c, _) => *c < -MAX_ENTRY_VALUE || *c > MAX_ENTRY_VALUE,
                Entry::Note(_) => false,
            };
            if bad {
                proof {
                    assert(abs_of(v[bi as int].1[ei as int]) > MAX_ENTRY_VALUE);
                    assert(!bucket_bounded(v[bi as int].1));
                    assert(!store_bounded(v));
                }
                return Err("Ledger totals out of range".to_owned());
            }
            ei = ei + 1;
        }
        bi = bi + 1;
    }
    proof {
        assert(store_bounded(v));
    }
    // The store's dates, sorted ascending.
    let mut ds: Vec<CalendarDate> = Vec::new();
    let mut di: usize = 0;
    proof {
        assert(store_dates(v).subrange(0, 0) =~= Seq::<CalendarDate>::empty());
        assert(ds@ =~= sort_dates_spec(store_dates(v).subrange(0, 0)));
    }
    while di < data.entries.len()
        invariant
            0 <= di <= data.entries@.len(),
            v == data@,
            ds@ == sort_dates_spec(store_dates(v).subrange(0, di as int)),
        decreases data.entries@.len() - di,
    {
        proof {
            let pre = store_dates(v).subrange(0, di as int);
            let post = store_dates(v).subrange(0, di + 1);
            assert(post.subrange(0, post.len() - 1) =~= pre);
            assert(post[post.len() - 1] == store_dates(v)[di as int]);
            assert(store_dates(v)[di as int] == data.entries@[di as int].0);
        }
        ds = insert_date_exec(ds, data.entries[di].0);
        di = di + 1;
    }
    proof {
        assert(store_dates(v).subrange(0, v.len() as int) =~= store_dates(v));
        assert(ds@ == sorted_store_dates(v));
    }
    let ghost dsv = ds@;
    // The total entry magnitude must fit the overall bound.
    let mut total_abs: i128 = 0;
    let mut i: usize = 0;
    proof {
        assert(dsv.subrange(0, 0) =~= Seq::<CalendarDate>::empty());
    }
    while i < ds.len()
        invariant
            0 <= i <= dsv.len(),
            v == data@,
            config_ok(*config),
            today_in_span(today),
            dsv == ds@,
            dsv == sorted_store_dates(v),
            store_bounded(v),
            total_abs == abs_upto(v, dsv.subrange(0, i as int)),
            0 <= total_abs <= MAX_TOTAL_VALUE,
        decreases dsv.len() - i,
    {
        let d = ds[i];
        let bucket = lookup_bucket(data, &d, Ghost(dsv), Ghost(i as int));
        let ghost bv = bucket_of(v, d);
        proof {
            assert(bv == entries_view(bucket@));
            assert(bucket_bounded(bv)) by {
                lemma_store_index_of_char(v, d);
            }
            assert(day_abs(bv.subrange(0, 0)) == 0) by {
                assert(bv.subrange(0, 0) =~= Seq::<EntryView>::empty());
            }
        }
        let mut day_total: i128 = 0;
        let mut k: usize = 0;
        while k < bucket.len()
            invariant
                0 <= k <= bv.len(),
                bv == entries_view(bucket@),
                bucket_bounded(bv),
                day_total == day_abs(bv.subrange(0, k as int)),
                0 <= day_total <= (k as int) * (MAX_ENTRY_VALUE as int),
            decreases bv.len() - k,
        {
            proof {
                let pre = bv.subrange(0, k as int);
                let post = bv.subrange(0, k + 1);
                assert(post.subrange(0, post.len() - 1) =~= pre);
                assert(post[post.len() - 1] == bv[k as int]);
                assert(bv[k as int] == bucket@[k as int]@);
                assert(abs_of(bv[k as int]) <= MAX_ENTRY_VALUE);
            }
            let a: i64 = match &bucket[k] {
                Entry::Time(h, _) => if *h < 0 {
                    -*h
                } else {
                    *h
                },
                Entry::FixedCost(c, _) => if *c < 0 {
                    -*c
                } else {
                    *c
                },
                Entry::Note(_) => 0,
            };
            day_total = day_total + (a as i128);
            k = k + 1;
        }
        proof {
            assert(bv.subrange(0, bv.len() as int) =~= bv);
            let pre = dsv.subrange(0, i as int);
            let post = dsv.subrange(0, i + 1);
            assert(post.subrange(0, post.len() - 1) =~= pre);
            assert(post[post.len() - 1] == dsv[i as int]);
        }
        if day_total > MAX_TOTAL_VALUE - total_abs {
            proof {
                lemma_abs_upto_prefix(v, dsv, i + 1);
            }
            return Err("Ledger totals out of range".to_owned());
        }
        total_abs = total_abs + day_total;
        i = i + 1;
    }
    proof {
        assert(dsv.subrange(0, dsv.len() as int) =~= dsv);
        assert(ledger_in_range(v));
    }
    // The chronological walk itself.
    let rate = config.hourly_rate;
    let cap_day = config.cap_hours_per_day;
    let cap_invoice = config.cap_hours_per_invoice;
    let mut days: Vec<DayRow> = Vec::new();
    let mut worked: i64 = 0;
    let mut counted: i64 = 0;
    let mut fees: i128 = 0;
    let mut discounts: i128 = 0;
    let mut i2: usize = 0;
    proof {
        assert(dsv.subrange(0, 0) =~= Seq::<CalendarDate>::empty());
        lemma_totals_bounded(v, dsv.subrange(0, 0), cap_day as int);
    }
    while i2 < ds.len()
        invariant
            0 <= i2 <= dsv.len(),
            v == data@,
            dsv == ds@,
            dsv == sorted_store_dates(v),
            store_wf(v),
            store_bounded(v),
            abs_upto(v, dsv) <= MAX_TOTAL_VALUE,
            -MAX_RATE <= rate <= MAX_RATE,
            rate == config.hourly_rate,
            cap_day == config.cap_hours_per_day,
            cap_invoice == config.cap_hours_per_invoice,
            -1_000_000_000_000_000_000 <= cap_day <= 1_000_000_000_000_000_000,
            worked == worked_upto(v, dsv.subrange(0, i2 as int)),
            counted == counted_upto(v, dsv.subrange(0, i2 as int), cap_day as int),
            fees == fees_upto(v, dsv.subrange(0, i2 as int)),
            discounts == discounts_upto(v, dsv.subrange(0, i2 as int)),
            days@.len() == i2,
            forall|j: int| 0 <= j < i2 ==> day_row_ok(v, *config, #[trigger] days@[j], j),
        decreases dsv.len() - i2,
    {
        let d = ds[i2];
        let bucket = lookup_bucket(data, &d, Ghost(dsv), Ghost(i2 as int));
        let ghost bv = bucket_of(v, d);
        proof {
            assert(bv == entries_view(bucket@));
            assert(bucket_bounded(bv)) by {
                lemma_store_index_of_char(v, d);
            }
            assert(bv.subrange(0, 0) =~= Seq::<EntryView>::empty());
            // day bound: this bucket weighs at most the grand total
            let pre = dsv.subrange(0, i2 as int);
            let post = dsv.subrange(0, i2 + 1);
            assert(post.subrange(0, post.len() - 1) =~= pre);
            assert(post[post.len() - 1] == dsv[i2 as int]);
            lemma_abs_upto_prefix(v, dsv, i2 + 1);
            lemma_totals_bounded(v, pre, cap_day as int);
            lemma_day_sums_bounded(bv);
        }
        let mut day_h: i64 = 0;
        let mut dfees: i128 = 0;
        let mut ddiscounts: i128 = 0;
        let mut texts: Vec<String> = Vec::new();
        let mut k: usize = 0;
        proof {
            assert(crate::text::views_of(texts@) =~= day_texts(bv.subrange(0, 0)));
        }
        while k < bucket.len()
            invariant
                0 <= k <= bv.len(),
                bv == entries_view(bucket@),
                bucket_bounded(bv),
                day_h == day_hours(bv.subrange(0, k as int)),
                dfees == day_fees(bv.subrange(0, k as int)),
                ddiscounts == day_discounts(bv.subrange(0, k as int)),
                crate::text::views_of(texts@) == day_texts(bv.subrange(0, k as int)),
                day_abs(bv) <= MAX_TOTAL_VALUE,
            decreases bv.len() - k,
        {
            proof {
                let pre = bv.subrange(0, k as int);
                let post = bv.subrange(0, k + 1);
                assert(post.subrange(0, post.len() - 1) =~= pre);
                assert(post[post.len() - 1] == bv[k as int]);
                assert(bv[k as int] == bucket@[k as int]@);
                lemma_day_sums_bounded(pre);
                lemma_day_abs_prefix(bv, k + 1);
                lemma_day_sums_bounded(post);
                lemma_day_sums_bounded(seq![bv[k as int]]);
                assert(seq![bv[k as int]].subrange(0, 0) =~= Seq::<EntryView>::empty());
            }
            let text: String;
            match &bucket[k] {
                Entry::Time(h, t) => {
                    day_h = day_h + *h;
                    text = t.clone();
                },
                Entry::FixedCost(c, t) => {
                    if *c > 0 {
                        dfees = dfees + (*c as i128);
                    } else {
                        ddiscounts = ddiscounts + (*c as i128);
                    }
                    text = t.clone();
                },
                Entry::Note(t) => {
                    text = t.clone();
                },
            }
            proof {
                assert(crate::text::views_of(texts@.push(text)) =~= crate::text::views_of(
                    texts@,
                ).push(text@));
                assert(day_texts(bv.subrange(0, k + 1)) =~= day_texts(
                    bv.subrange(0, k as int),
                ).push(text_of(bv[k as int])));
            }
            texts.push(text);
            k = k + 1;
        }
        proof {
            assert(bv.subrange(0, bv.len() as int) =~= bv);
        }
        let mut desc = crate::text::join_all(&texts, "; ");
        let billed_h: i64;
        if cap_day > 0 && day_h > 0 && day_h > cap_day {
            desc.append(" (");
            let worked_str = crate::format::format_ticks(day_h);
            desc.append(worked_str.as_str());
            desc.append(" worked, ");
            let cap_str = crate::format::format_ticks(cap_day);
            desc.append(cap_str.as_str());
            desc.append(" billed)");
            billed_h = cap_day;
        } else {
            billed_h = day_h;
        }
        proof {
            assert(desc@ == day_desc(bv, cap_day as int));
            assert(billed_h == billed_day(day_hours(bv), cap_day as int));
        }
        let cost = mul_div(billed_h as i128, rate as i128, 60_000);
        let row = DayRow {
            index: i2 + 1,
            date: d,
            hours: billed_h,
            cost,
            description: desc,
        };
        proof {
            assert(day_row_ok(v, *config, row, i2 as int));
        }
        days.push(row);
        proof {
            let pre = dsv.subrange(0, i2 as int);
            let post = dsv.subrange(0, i2 + 1);
            assert(post.subrange(0, post.len() - 1) =~= pre);
            assert(post[post.len() - 1] == dsv[i2 as int]);
            lemma_totals_bounded(v, post, cap_day as int);
            lemma_abs_upto_prefix(v, dsv, i2 + 1);
        }
        worked = worked + day_h;
        counted = counted + billed_h;
        fees = fees + dfees;
        discounts = discounts + ddiscounts;
        i2 = i2 + 1;
    }
    proof {
        assert(dsv.subrange(0, dsv.len() as int) =~= dsv);
        lemma_totals_bounded(v, dsv, cap_day as int);
    }
    // Invoice-level figures.
    let over: i64 = if cap_invoice > 0 && counted > cap_invoice {
        counted - cap_invoice
    } else {
        0
    };
    let billed_total: i64 = counted - over;
    let counted_amount = mul_div(counted as i128, rate as i128, 60_000);
    let billed_amount = mul_div(billed_total as i128, rate as i128, 60_000);
    let over_amount = mul_div(over as i128, rate as i128, 60_000);
    proof {
        assert((counted as int) * (rate as int) <= 1_000_000_000_000_000_000
            * 1_000_000_000_000 && (counted as int) * (rate as int) >= -(
        1_000_000_000_000_000_000 * 1_000_000_000_000)) by (nonlinear_arith)
            requires
                -1_000_000_000_000_000_000 <= counted as int <= 1_000_000_000_000_000_000,
                -1_000_000_000_000 <= rate as int <= 1_000_000_000_000,
        ;
        assert((billed_total as int) * (rate as int) <= 1_000_000_000_000_000_000
            * 1_000_000_000_000 && (billed_total as int) * (rate as int) >= -(
        1_000_000_000_000_000_000 * 1_000_000_000_000)) by (nonlinear_arith)
            requires
                -1_000_000_000_000_000_000 <= billed_total as int <= 1_000_000_000_000_000_000,
                -1_000_000_000_000 <= rate as int <= 1_000_000_000_000,
        ;
        lemma_div_trunc_bound(
            (billed_total as int) * (rate as int),
            60_000,
            1_000_000_000_000_000_000int * 1_000_000_000_000int,
        );
        assert((over as int) * (rate as int) <= 1_000_000_000_000_000_000
            * 1_000_000_000_000 && (over as int) * (rate as int) >= -(
        1_000_000_000_000_000_000 * 1_000_000_000_000)) by (nonlinear_arith)
            requires
                -1_000_000_000_000_000_000 <= over as int <= 1_000_000_000_000_000_000,
                -1_000_000_000_000 <= rate as int <= 1_000_000_000_000,
        ;
        lemma_div_trunc_bound(
            (over as int) * (rate as int),
            60_000,
            1_000_000_000_000_000_000int * 1_000_000_000_000int,
        );
    }
    let subtotal: i128 = billed_amount + fees + discounts;
    let tax = mul_div(subtotal, config.tax_percent as i128, 1_000_000);
    proof {
        assert((subtotal as int) * (config.tax_percent as int) <= 100_000_000_000_000_000_000_000_000
            * 10_000_000 && (subtotal as int) * (config.tax_percent as int) >= -(
        100_000_000_000_000_000_000_000_000 * 10_000_000)) by (nonlinear_arith)
            requires
                -100_000_000_000_000_000_000_000_000 <= subtotal as int
                    <= 100_000_000_000_000_000_000_000_000,
                -10_000_000 <= config.tax_percent as int <= 10_000_000,
        ;
        lemma_div_trunc_bound(
            (subtotal as int) * (config.tax_percent as int),
            1_000_000,
            100_000_000_000_000_000_000_000_000int * 10_000_000int,
        );
    }
    let total_amount = subtotal + tax;
    let period_start = if ds.len() > 0 {
        ds[0]
    } else {
        today
    };
    let period_end = if ds.len() > 0 {
        ds[ds.len() - 1]
    } else {
        today
    };
    let due_date = add_days(today, config.payment_days);
    Ok(
        InvoiceTotals {
            days,
            total_hours_worked: worked,
            total_hours_counted: counted,
            total_hours_billed: billed_total,
            counted_amount,
            billed_amount,
            total_fixed_fees: fees,
            total_discounts: discounts,
            overage_hours: over,
            overage_discount: -over_amount,
            subtotal_amount: subtotal,
            tax_amount: tax,
            total_amount,
            period_start,
            period_end,
            invoice_date: today,
            due_date,
        },
    )
}

} // verus!
