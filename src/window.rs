use vstd::prelude::*;

use crate::civil::{
    advance, advance_spec, fields_ok, truncate, truncate_spec, CivilDateTime, Period,
};

verus! {

/// How timestamps are bucketed into calendar windows.
#[derive(Clone, Copy, Debug, PartialEq, Eq, Structural)]
pub struct WindowSpec {
    /// Distance between successive window starts; its unit decides truncation.
    pub step: Period,
    /// Length of each window.
    pub length: Period,
    /// Shift applied to the truncated anchor.
    pub offset: Period,
    /// Label each group by its window start rather than by the timestamp of
    /// its first row.
    pub truncate_to_window_start: bool,
}

/// The half-open interval `[start, end)`.
#[derive(Clone, Copy, Debug, PartialEq, Eq, Structural)]
pub struct Window {
    pub start: CivilDateTime,
    pub end: CivilDateTime,
}

/// The window of `t`: truncate to the unit of the step, shift by the offset,
/// and extend by the length.
#[verifier::opaque]
pub open spec fn window_spec_of(t: CivilDateTime, ws: WindowSpec) -> Window {
    let start = advance_spec(truncate_spec(t, ws.step), ws.offset);
    Window { start, end: advance_spec(start, ws.length) }
}

pub open spec fn is_zero(p: Period) -> bool {
    match p {
        Period::Days(n) => n == 0,
        Period::Months(n) => n == 0,
    }
}

/// Computes the window that timestamp `t` is assigned to.
pub fn window_of(t: CivilDateTime, ws: &WindowSpec) -> (w: Window)
    requires
        t.wf(),
    ensures
        w == window_spec_of(t, *ws),
        fields_ok(w.start),
        fields_ok(w.end),
{
    reveal(window_spec_of);
    let anchor = truncate(t, ws.step);
    let start = advance(anchor, ws.offset);
    let end = advance(start, ws.length);
    Window { start, end }
}

proof fn lemma_advance_zero(d: CivilDateTime, p: Period)
    requires
        fields_ok(d),
        is_zero(p),
    ensures
        advance_spec(d, p) == d,
{
    match p {
        Period::Days(n) => {
            assert(crate::civil::add_days_spec(d, 0) == d);
        },
        Period::Months(n) => {
            let total = d.year * 12 + (d.month - 1) + 0;
            assert(total / 12 == d.year && total % 12 == d.month - 1) by (nonlinear_arith)
                requires
                    total == d.year * 12 + (d.month - 1),
                    0 <= d.month - 1 < 12,
                    d.year >= 0,
            ;
        },
    }
}

/// A timestamp that lies exactly on the start of a window is assigned to that
/// window and not to the one before it (windows are closed on the left), when
/// no alignment offset is applied.
pub proof fn lemma_window_start_belongs(u: CivilDateTime, ws: WindowSpec)
    requires
        u.wf(),
        is_zero(ws.offset),
    ensures
        window_spec_of(window_spec_of(u, ws).start, ws) == window_spec_of(u, ws),
{
    reveal(window_spec_of);
    let anchor = truncate_spec(u, ws.step);
    lemma_advance_zero(anchor, ws.offset);
    let s = window_spec_of(u, ws).start;
    assert(s == anchor);
    assert(truncate_spec(s, ws.step) == s);
    lemma_advance_zero(s, ws.offset);
}

/// Calendar-month windows with no offset hold exactly their own timestamps:
/// a timestamp lies in `[start, end)` of the window it is assigned to, which
/// starts on the first of its month and ends on the first of the next.
pub proof fn lemma_monthly_window_contains(t: CivilDateTime, ws: WindowSpec)
    requires
        t.wf(),
        ws.step is Months,
        ws.length == Period::Months(1),
        is_zero(ws.offset),
    ensures
        crate::civil::not_after(window_spec_of(t, ws).start, t),
        crate::civil::before(t, window_spec_of(t, ws).end),
        window_spec_of(t, ws).start == crate::civil::start_of_month(t),
        window_spec_of(t, ws).end.day == 1,
        t.month < 12 ==> window_spec_of(t, ws).end.year == t.year && window_spec_of(t, ws).end.month
            == t.month + 1,
        t.month == 12 ==> window_spec_of(t, ws).end.year == t.year + 1 && window_spec_of(t, ws).end.month
            == 1,
{
    reveal(window_spec_of);
    let anchor = truncate_spec(t, ws.step);
    lemma_advance_zero(anchor, ws.offset);
    let total = t.year * 12 + (t.month - 1) + 1;
    if t.month < 12 {
        assert(total / 12 == t.year && total % 12 == t.month) by (nonlinear_arith)
            requires
                total == t.year * 12 + t.month,
                1 <= t.month < 12,
                t.year >= 0,
        ;
    } else {
        assert(total / 12 == t.year + 1 && total % 12 == 0) by (nonlinear_arith)
            requires
                total == t.year * 12 + 12,
                t.year >= 0,
        ;
    }
}

} // verus!
