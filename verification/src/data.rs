//! The ledger data model: entries, date ranges, the date selector, and
//! the date-indexed entry store built by scanning ledger files.
//!
//! Hours are held in ticks of 1/60000 hour, so that both `HH:MM` ranges
//! (one minute = 1000 ticks) and decimal hour literals of up to four
//! fractional digits are exact. Money amounts are held in units of
//! 1/10000 of the currency.

use vstd::prelude::*;
use crate::dates::CalendarDate;
use crate::text::{spec_trim, views_of};

verus! {

/// Hour ticks per hour.
pub const TICKS_PER_HOUR: i64 = 60_000;

/// Hour ticks per clock minute.
pub const TICKS_PER_MINUTE: i64 = 1_000;

/// Money units per whole currency unit.
pub const AMOUNT_SCALE: i64 = 10_000;

/// Largest magnitude the parser accepts for one entry's hour ticks or
/// money units; keeps every aggregation step far from overflow.
pub const MAX_ENTRY_VALUE: i64 = 10_000_000_000_000_000;

/// One ledger line's worth of billable information: time worked (in
/// hour ticks, signed; negative entries are corrections), a fixed cost
/// (in money units, signed; negative is a discount), or a non-billable
/// note.
#[derive(Debug, Clone)]
pub enum Entry {
    Time(i64, String),
    FixedCost(i64, String),
    Note(String),
}

/// The mathematical shape of an [`Entry`]: the same three variants over
/// unbounded integers and character sequences.
pub enum EntryView {
    Time { ticks: int, text: Seq<char> },
    FixedCost { amount: int, text: Seq<char> },
    Note { text: Seq<char> },
}

impl View for Entry {
    type V = EntryView;

    open spec fn view(&self) -> EntryView {
        match self {
            Entry::Time(h, d) => EntryView::Time { ticks: *h as int, text: d@ },
            Entry::FixedCost(c, d) => EntryView::FixedCost { amount: *c as int, text: d@ },
            Entry::Note(n) => EntryView::Note { text: n@ },
        }
    }
}

/// An inclusive range of calendar dates.
#[derive(Debug, Clone, Copy, PartialEq, Eq, Structural)]
pub struct DateRange {
    pub start: CalendarDate,
    pub end: CalendarDate,
}

/// Whether `d` lies in the inclusive range `r`.
pub open spec fn range_contains(r: DateRange, d: CalendarDate) -> bool {
    crate::dates::date_le(r.start, d) && crate::dates::date_le(d, r.end)
}

/// A set of date ranges used to filter ledger entries. An empty
/// selector selects every date.
#[derive(Debug, Clone)]
pub struct DateSelector {
    pub ranges: Vec<DateRange>,
}

/// Whether the selector accepts `d`: it has no ranges at all, or some
/// range covers `d`.
pub open spec fn spec_selected(ranges: Seq<DateRange>, d: CalendarDate) -> bool {
    ranges.len() == 0 || exists|i: int| 0 <= i < ranges.len() && range_contains(ranges[i], d)
}

impl DateSelector {
    /// Creates a selector that accepts every date.
    pub fn new() -> (r: Self)
        ensures
            r.ranges@ =~= Seq::<DateRange>::empty(),
    {
        DateSelector { ranges: Vec::new() }
    }

    /// Appends a range to the selector.
    pub fn add_range(&mut self, range: DateRange)
        ensures
            final(self).ranges@ == old(self).ranges@.push(range),
    {
        self.ranges.push(range);
    }

    /// The ranges a list of date arguments names, in order; building
    /// stops at the first bad argument, naming it in the error.
    pub open spec fn spec_ranges_from_dates(dates: Seq<Seq<char>>) -> Result<
        Seq<DateRange>,
        Seq<char>,
    >
        decreases dates.len(),
    {
        if dates.len() == 0 {
            Ok(Seq::empty())
        } else {
            match crate::parse::spec_parse_date_arg(dates[0]) {
                Err(e) => Err("Invalid date argument: "@ + dates[0] + " - "@ + e),
                Ok(r) => match Self::spec_ranges_from_dates(
                    dates.subrange(1, dates.len() as int),
                ) {
                    Err(e) => Err(e),
                    Ok(rest) => Ok(seq![r] + rest),
                },
            }
        }
    }

    /// Builds a selector from date-argument strings; any single bad
    /// argument fails the whole construction with an error naming it.
    pub fn from_dates(dates: &Vec<String>) -> (r: Result<Self, String>)
        ensures
            match r {
                Ok(sel) => Self::spec_ranges_from_dates(views_of(dates@)) == Ok::<
                    Seq<DateRange>,
                    Seq<char>,
                >(sel.ranges@),
                Err(m) => Self::spec_ranges_from_dates(views_of(dates@)) == Err::<
                    Seq<DateRange>,
                    Seq<char>,
                >(m@),
            },
    {
        let ghost all = views_of(dates@);
        let mut sel = DateSelector::new();
        let mut i: usize = 0;
        proof {
            assert(all.subrange(0, all.len() as int) =~= all);
            assert(seq![] + Self::spec_ranges_from_dates(all)->Ok_0 =~= Self::spec_ranges_from_dates(
                all,
            )->Ok_0);
        }
        while i < dates.len()
            invariant
                0 <= i <= dates@.len(),
                all == views_of(dates@),
                Self::spec_ranges_from_dates(all) == (match Self::spec_ranges_from_dates(
                    all.subrange(i as int, all.len() as int),
                ) {
                    Err(e) => Err::<Seq<DateRange>, Seq<char>>(e),
                    Ok(rest) => Ok::<Seq<DateRange>, Seq<char>>(sel.ranges@ + rest),
                }),
            decreases dates@.len() - i,
        {
            let ghost tail = all.subrange(i as int, all.len() as int);
            proof {
                assert(tail[0] == all[i as int]);
                assert(all[i as int] == dates@[i as int]@);
                assert(tail.subrange(1, tail.len() as int) =~= all.subrange(
                    i + 1,
                    all.len() as int,
                ));
            }
            match crate::parse::parse_date_arg(dates[i].as_str()) {
                Ok(range) => {
                    proof {
                        assert(sel.ranges@.push(range) =~= sel.ranges@ + seq![range]);
                        assert(forall|rest: Seq<DateRange>|
                            (sel.ranges@ + seq![range]) + rest =~= sel.ranges@ + (seq![range]
                                + rest));
                    }
                    sel.add_range(range);
                },
                Err(err) => {
                    let mut msg = "Invalid date argument: ".to_owned();
                    msg.append(dates[i].as_str());
                    msg.append(" - ");
                    msg.append(err.as_str());
                    return Err(msg);
                },
            }
            i = i + 1;
        }
        proof {
            assert(all.subrange(i as int, all.len() as int) =~= Seq::<Seq<char>>::empty());
            assert(sel.ranges@ + Seq::<DateRange>::empty() =~= sel.ranges@);
        }
        Ok(sel)
    }

    /// Whether the selector accepts `date`.
    pub fn selected(&self, date: &CalendarDate) -> (r: bool)
        ensures
            r == spec_selected(self.ranges@, *date),
    {
        if self.ranges.len() == 0 {
            return true;
        }
        let mut i: usize = 0;
        while i < self.ranges.len()
            invariant
                0 <= i <= self.ranges@.len(),
                forall|j: int| 0 <= j < i ==> !range_contains(self.ranges@[j], *date),
            decreases self.ranges@.len() - i,
        {
            let r = &self.ranges[i];
            if date.le(&r.end) && r.start.le(date) {
                return true;
            }
            i = i + 1;
        }
        false
    }
}

/// The views of a list of entries.
pub open spec fn entries_view(v: Seq<Entry>) -> Seq<EntryView> {
    v.map_values(|e: Entry| e@)
}

/// The date-indexed entry store built from ledger files: for each date
/// the entries recorded for it, dates in order of first appearance,
/// entry order within a date preserved.
#[derive(Debug)]
pub struct TimeData {
    pub entries: Vec<(CalendarDate, Vec<Entry>)>,
}

impl View for TimeData {
    type V = Seq<(CalendarDate, Seq<EntryView>)>;

    open spec fn view(&self) -> Seq<(CalendarDate, Seq<EntryView>)> {
        self.entries@.map_values(|p: (CalendarDate, Vec<Entry>)| (p.0, entries_view(p.1@)))
    }
}

/// Each date appears at most once in the store.
pub open spec fn store_wf(v: Seq<(CalendarDate, Seq<EntryView>)>) -> bool {
    forall|i: int, j: int| 0 <= i < j < v.len() ==> v[i].0 != v[j].0
}

/// Index of the bucket for `d`, or `-1` if the store has none.
pub open spec fn store_index_of(v: Seq<(CalendarDate, Seq<EntryView>)>, d: CalendarDate) -> int
    decreases v.len(),
{
    if v.len() == 0 {
        -1
    } else if v[0].0 == d {
        0
    } else {
        let r = store_index_of(v.subrange(1, v.len() as int), d);
        if r < 0 {
            -1
        } else {
            r + 1
        }
    }
}

/// The store with `e` appended to the bucket for `d`, the bucket being
/// created at the end if the date is new.
pub open spec fn store_add(
    v: Seq<(CalendarDate, Seq<EntryView>)>,
    d: CalendarDate,
    e: EntryView,
) -> Seq<(CalendarDate, Seq<EntryView>)> {
    let k = store_index_of(v, d);
    if k < 0 {
        v.push((d, seq![e]))
    } else {
        v.update(k, (v[k].0, v[k].1.push(e)))
    }
}

proof fn lemma_store_index_of_found(v: Seq<(CalendarDate, Seq<EntryView>)>, d: CalendarDate, k: int)
    requires
        0 <= k < v.len(),
        v[k].0 == d,
        forall|j: int| 0 <= j < k ==> v[j].0 != d,
    ensures
        store_index_of(v, d) == k,
    decreases k,
{
    if k > 0 {
        let v1 = v.subrange(1, v.len() as int);
        assert(forall|j: int| 0 <= j < v1.len() ==> v1[j] == v[j + 1]);
        lemma_store_index_of_found(v1, d, k - 1);
    }
}

proof fn lemma_store_index_of_absent(v: Seq<(CalendarDate, Seq<EntryView>)>, d: CalendarDate)
    requires
        forall|j: int| 0 <= j < v.len() ==> v[j].0 != d,
    ensures
        store_index_of(v, d) == -1,
    decreases v.len(),
{
    if v.len() > 0 {
        let v1 = v.subrange(1, v.len() as int);
        assert(forall|j: int| 0 <= j < v1.len() ==> v1[j] == v[j + 1]);
        lemma_store_index_of_absent(v1, d);
    }
}

/// Adding an entry never duplicates a date.
pub proof fn lemma_store_add_wf(
    v: Seq<(CalendarDate, Seq<EntryView>)>,
    d: CalendarDate,
    e: EntryView,
)
    requires
        store_wf(v),
    ensures
        store_wf(store_add(v, d, e)),
    decreases v.len(),
{
    let k = store_index_of(v, d);
    let w = store_add(v, d, e);
    lemma_store_index_bounds(v, d);
    lemma_store_index_of_char(v, d);
    if k < 0 {
        assert forall|i: int, j: int| 0 <= i < j < w.len() implies w[i].0 != w[j].0 by {
            if j == v.len() {
                assert(w[i] == v[i]);
                assert(w[j].0 == d);
            } else {
                assert(w[i] == v[i]);
                assert(w[j] == v[j]);
            }
        }
    } else {
        assert forall|i: int, j: int| 0 <= i < j < w.len() implies w[i].0 != w[j].0 by {
            assert(w[i].0 == v[i].0);
            assert(w[j].0 == v[j].0);
        }
    }
}

/// A non-negative index found by `store_index_of` points at `d`; a
/// negative one means no bucket holds `d`.
pub proof fn lemma_store_index_of_char(v: Seq<(CalendarDate, Seq<EntryView>)>, d: CalendarDate)
    ensures
        store_index_of(v, d) >= 0 ==> 0 <= store_index_of(v, d) < v.len() && v[store_index_of(
            v,
            d,
        )].0 == d,
        store_index_of(v, d) < 0 ==> forall|j: int| 0 <= j < v.len() ==> v[j].0 != d,
    decreases v.len(),
{
    if v.len() > 0 {
        let v1 = v.subrange(1, v.len() as int);
        assert(forall|j: int| 0 <= j < v1.len() ==> v1[j] == v[j + 1]);
        lemma_store_index_of_char(v1, d);
        if store_index_of(v, d) < 0 {
            assert forall|j: int| 0 <= j < v.len() implies v[j].0 != d by {
                if j > 0 {
                    assert(v1[j - 1] == v[j]);
                }
            }
        }
    }
}

proof fn lemma_store_index_bounds(v: Seq<(CalendarDate, Seq<EntryView>)>, d: CalendarDate)
    ensures
        -1 <= store_index_of(v, d) < v.len(),
    decreases v.len(),
{
    if v.len() > 0 {
        lemma_store_index_bounds(v.subrange(1, v.len() as int), d);
    }
}

impl TimeData {
    /// Creates an empty store.
    pub fn new() -> (r: Self)
        ensures
            r@ =~= Seq::<(CalendarDate, Seq<EntryView>)>::empty(),
            store_wf(r@),
    {
        TimeData { entries: Vec::new() }
    }

    /// Number of dates that have a bucket.
    pub fn day_count(&self) -> (n: usize)
        ensures
            n == self@.len(),
    {
        self.entries.len()
    }

    /// The entries recorded for `date`, if any.
    pub fn get(&self, date: &CalendarDate) -> (r: Option<&Vec<Entry>>)
        ensures
            r is Some <==> store_index_of(self@, *date) >= 0,
            r matches Some(v) ==> entries_view(v@) == self@[store_index_of(self@, *date)].1,
    {
        let mut i: usize = 0;
        while i < self.entries.len()
            invariant
                0 <= i <= self.entries@.len(),
                forall|j: int| 0 <= j < i ==> self@[j].0 != *date,
            decreases self.entries@.len() - i,
        {
            if self.entries[i].0 == *date {
                proof {
                    lemma_store_index_of_found(self@, *date, i as int);
                }
                return Some(&self.entries[i].1);
            }
            i = i + 1;
        }
        proof {
            lemma_store_index_of_absent(self@, *date);
        }
        None
    }

    /// Appends `entry` to the bucket for `date`, opening a new bucket
    /// at the end if the date is new.
    pub fn add_entry(&mut self, date: CalendarDate, entry: Entry)
        ensures
            final(self)@ == store_add(old(self)@, date, entry@),
    {
        let ghost v0 = self@;
        let mut i: usize = 0;
        while i < self.entries.len()
            invariant
                0 <= i <= self.entries@.len(),
                self@ == v0,
                v0 == old(self)@,
                forall|j: int| 0 <= j < i ==> self@[j].0 != date,
            decreases self.entries@.len() - i,
        {
            if self.entries[i].0 == date {
                proof {
                    lemma_store_index_of_found(self@, date, i as int);
                }
                let pair = self.entries.remove(i);
                let pd = pair.0;
                let mut pvec = pair.1;
                pvec.push(entry);
                self.entries.insert(i, (pd, pvec));
                proof {
                    let w = store_add(v0, date, entry@);
                    assert(self@.len() == w.len());
                    assert forall|j: int| 0 <= j < w.len() implies self@[j] =~~= w[j] by {
                        if j == i {
                            assert(self@[j].1 =~= v0[j].1.push(entry@));
                        } else {
                            assert(self@[j] == v0[j]);
                        }
                    }
                    assert(self@ =~~= w);
                }
                return ;
            }
            i = i + 1;
        }
        proof {
            lemma_store_index_of_absent(self@, date);
        }
        let mut bucket: Vec<Entry> = Vec::new();
        bucket.push(entry);
        self.entries.push((date, bucket));
        proof {
            assert(self@ =~~= store_add(v0, date, entry@));
        }
    }
}

/// A recoverable per-line fault found while scanning a ledger file:
/// the 1-based line number, the message, and the offending text.
#[derive(Debug)]
pub struct LineIssue {
    pub line_number: usize,
    pub message: String,
    pub text: String,
}

impl View for LineIssue {
    type V = (int, Seq<char>, Seq<char>);

    open spec fn view(&self) -> (int, Seq<char>, Seq<char>) {
        (self.line_number as int, self.message@, self.text@)
    }
}

/// The views of a list of line issues.
pub open spec fn issues_view(v: Seq<LineIssue>) -> Seq<(int, Seq<char>, Seq<char>)> {
    v.map_values(|x: LineIssue| x@)
}

/// The scanner's state between lines: the store built so far, the
/// current date context, and the issues reported so far.
#[verifier::ext_equal]
pub struct ScanState {
    pub store: Seq<(CalendarDate, Seq<EntryView>)>,
    pub cur: Option<CalendarDate>,
    pub issues: Seq<(int, Seq<char>, Seq<char>)>,
}

/// A line the scanner skips outright: blank, or a full-line `#` or
/// `//` comment.
pub open spec fn comment_line(t: Seq<char>) -> bool {
    t.len() == 0 || t[0] == '#' || (t.len() >= 2 && t[0] == '/' && t[1] == '/')
}

/// One line of the scan of a ledger file: a date line becomes the new
/// date context; an entry line is parsed into the current date's
/// bucket when the selector accepts that date; faults are reported and
/// never fatal.
pub open spec fn scan_step(
    st: ScanState,
    ranges: Seq<DateRange>,
    line: Seq<char>,
    lineno: int,
) -> ScanState {
    let t = spec_trim(line);
    if comment_line(t) {
        st
    } else {
        match crate::parse::spec_parse_date(t) {
            Some(d) => ScanState { cur: Some(d), ..st },
            None => match st.cur {
                None => ScanState {
                    issues: st.issues.push((lineno, "Expected date, found:"@, t)),
                    ..st
                },
                Some(d) => if spec_selected(ranges, d) {
                    match crate::parse::spec_parse_line(t) {
                        Ok(e) => ScanState { store: store_add(st.store, d, e), ..st },
                        Err(m) => ScanState { issues: st.issues.push((lineno, m, t)), ..st },
                    }
                } else {
                    st
                },
            },
        }
    }
}

/// The scan of a whole file, line by line.
pub open spec fn scan_lines(
    st: ScanState,
    ranges: Seq<DateRange>,
    lines: Seq<Seq<char>>,
    first_lineno: int,
) -> ScanState
    decreases lines.len(),
{
    if lines.len() == 0 {
        st
    } else {
        scan_lines(
            scan_step(st, ranges, lines[0], first_lineno),
            ranges,
            lines.subrange(1, lines.len() as int),
            first_lineno + 1,
        )
    }
}

/// A malformed entry line within a selected date context is skipped
/// with a report: it contributes nothing to any date's entries, and
/// the scan goes on.
pub proof fn lemma_malformed_line_skipped(
    st: ScanState,
    ranges: Seq<DateRange>,
    line: Seq<char>,
    lineno: int,
)
    requires
        !comment_line(spec_trim(line)),
        crate::parse::spec_parse_date(spec_trim(line)) is None,
        st.cur matches Some(d) && spec_selected(ranges, d),
        crate::parse::spec_parse_line(spec_trim(line)) is Err,
    ensures
        scan_step(st, ranges, line, lineno).store == st.store,
        scan_step(st, ranges, line, lineno).cur == st.cur,
        scan_step(st, ranges, line, lineno).issues == st.issues.push(
            (
                lineno,
                crate::parse::spec_parse_line(spec_trim(line))->Err_0,
                spec_trim(line),
            ),
        ),
{
}

impl TimeData {
    /// Scans the lines of one ledger file into the store, keeping a
    /// current-date context that starts unset. Returns the recoverable
    /// per-line faults; no line ever aborts the scan.
    pub fn scan_file(&mut self, selector: &DateSelector, lines: &Vec<String>) -> (issues: Vec<
        LineIssue,
    >)
        ensures
            ({
                let out = scan_lines(
                    ScanState { store: old(self)@, cur: None, issues: Seq::empty() },
                    selector.ranges@,
                    views_of(lines@),
                    1,
                );
                &&& final(self)@ == out.store
                &&& issues_view(issues@) == out.issues
            }),
    {
        let ghost all = views_of(lines@);
        let ghost init = ScanState { store: self@, cur: None, issues: Seq::empty() };
        let mut cur: Option<CalendarDate> = None;
        let mut issues: Vec<LineIssue> = Vec::new();
        let mut i: usize = 0;
        proof {
            assert(all.subrange(0, all.len() as int) =~= all);
            assert(issues_view(issues@) =~= Seq::<(int, Seq<char>, Seq<char>)>::empty());
        }
        while i < lines.len()
            invariant
                0 <= i <= lines@.len(),
                all == views_of(lines@),
                init == (ScanState { store: old(self)@, cur: None, issues: Seq::empty() }),
                scan_lines(init, selector.ranges@, all, 1) == scan_lines(
                    ScanState { store: self@, cur, issues: issues_view(issues@) },
                    selector.ranges@,
                    all.subrange(i as int, all.len() as int),
                    i + 1,
                ),
            decreases lines@.len() - i,
        {
            let ghost tail = all.subrange(i as int, all.len() as int);
            let ghost st = ScanState { store: self@, cur, issues: issues_view(issues@) };
            proof {
                assert(tail[0] == all[i as int]);
                assert(all[i as int] == lines@[i as int]@);
                assert(tail.subrange(1, tail.len() as int) =~= all.subrange(
                    i + 1,
                    all.len() as int,
                ));
            }
            let t = crate::text::trim(lines[i].as_str());
            let tl = t.unicode_len();
            let is_comment = tl == 0 || t.get_char(0) == '#' || (tl >= 2 && t.get_char(0) == '/'
                && t.get_char(1) == '/');
            if !is_comment {
                match crate::parse::parse_date(t) {
                    Some(d) => {
                        cur = Some(d);
                    },
                    None => {
                        match cur {
                            None => {
                                let issue = LineIssue {
                                    line_number: i + 1,
                                    message: "Expected date, found:".to_owned(),
                                    text: t.to_owned(),
                                };
                                proof {
                                    assert(issues_view(issues@.push(issue)) =~= issues_view(
                                        issues@,
                                    ).push(issue@));
                                }
                                issues.push(issue);
                            },
                            Some(d) => {
                                if selector.selected(&d) {
                                    match crate::parse::parse_line(t) {
                                        Ok(e) => {
                                            self.add_entry(d, e);
                                        },
                                        Err(m) => {
                                            let issue = LineIssue {
                                                line_number: i + 1,
                                                message: m,
                                                text: t.to_owned(),
                                            };
                                            proof {
                                                assert(issues_view(issues@.push(issue))
                                                    =~= issues_view(issues@).push(issue@));
                                            }
                                            issues.push(issue);
                                        },
                                    }
                                }
                            },
                        }
                    },
                }
            }
            proof {
                let st2 = ScanState { store: self@, cur, issues: issues_view(issues@) };
                assert(st2 =~~= scan_step(st, selector.ranges@, tail[0], i + 1));
            }
            i = i + 1;
        }
        proof {
            assert(all.subrange(i as int, all.len() as int) =~= Seq::<Seq<char>>::empty());
        }
        issues
    }
}

} // verus!
