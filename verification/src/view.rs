//! The view pipeline: a pure filter → sort → paginate transformation of
//! one type's record list, plus column-width layout and the compressed
//! set of page indices shown by the pager.

use vstd::prelude::*;
use vstd::string::*;
use crate::models::{
    Record, RecordV, Payload, PayloadV, rec_views, str_views, spec_cell, cell_text,
};
use crate::strings::{cell_le, cell_le_exec, seq_contains, str_contains};
use crate::sorting::{sort_stable, insert_by, lemma_insert_by_at, lemma_insert_by_len};
use crate::data::{GroupV, records_of, headers_of};

verus! {

/// The cell of a record at a column index under the given headers:
/// column 0 is the key, later columns look the header's field up in the
/// payload, and a column past the headers is empty.
pub open spec fn spec_cell_at(r: RecordV, headers: Seq<Seq<char>>, col: int) -> Seq<char> {
    if col == 0 {
        r.key
    } else if 0 < col < headers.len() {
        spec_cell(r.data, headers[col])
    } else {
        Seq::empty()
    }
}

/// Renders the cell of a record at one column index.
pub fn cell_at(r: &Record, headers: &Vec<String>, col: usize) -> (out: String)
    ensures
        out@ == spec_cell_at(r@, str_views(headers@), col as int),
{
    if col == 0 {
        r.key.clone()
    } else if col < headers.len() {
        match &r.data {
            Payload::Object(fields) => {
                let c = cell_text(fields, &headers[col]);
                proof {
                    assert(r@.data == PayloadV::Object(crate::models::field_views(fields@)));
                }
                c
            },
            Payload::Other => String::new(),
        }
    } else {
        String::new()
    }
}

/// The sort relation of the pipeline: cells at the sort column compare
/// numerically when both parse as numbers, else lexicographically, with
/// the direction flag flipping the roles.
pub open spec fn view_le(headers: Seq<Seq<char>>, col: int, asc: bool) -> spec_fn(
    RecordV,
    RecordV,
) -> bool {
    |a: RecordV, b: RecordV|
        if asc {
            cell_le(spec_cell_at(a, headers, col), spec_cell_at(b, headers, col))
        } else {
            cell_le(spec_cell_at(b, headers, col), spec_cell_at(a, headers, col))
        }
}

fn view_le_exec(a: &Record, b: &Record, headers: &Vec<String>, col: usize, asc: bool) -> (r: bool)
    ensures
        r == view_le(str_views(headers@), col as int, asc)(a@, b@),
{
    let ca = cell_at(a, headers, col);
    let cb = cell_at(b, headers, col);
    if asc {
        cell_le_exec(ca.as_str(), cb.as_str())
    } else {
        cell_le_exec(cb.as_str(), ca.as_str())
    }
}

/// The filter predicate: the record's key contains the filter text.
pub open spec fn key_contains_pred(f: Seq<char>) -> spec_fn(RecordV) -> bool {
    |r: RecordV| seq_contains(r.key, f)
}

/// The filter step: an empty filter keeps everything, a non-empty one
/// keeps the records whose key contains it (case-sensitive), in order.
pub open spec fn spec_filter_records(rs: Seq<RecordV>, f: Seq<char>) -> Seq<RecordV> {
    if f.len() == 0 {
        rs
    } else {
        rs.filter(key_contains_pred(f))
    }
}

/// Applies the filter step, copying the surviving records.
pub fn filter_records(records: &Vec<Record>, filter: &String) -> (out: Vec<Record>)
    ensures
        rec_views(out@) == spec_filter_records(rec_views(records@), filter@),
{
    let ghost rv = rec_views(records@);
    let ghost pred = key_contains_pred(filter@);
    let keep_all = filter.as_str().unicode_len() == 0;
    let mut out: Vec<Record> = Vec::new();
    let mut i: usize = 0;
    proof {
        reveal(Seq::filter);
        assert(rec_views(out@) =~= rv.subrange(0, 0).filter(pred));
        assert(rec_views(out@) =~= rv.subrange(0, 0));
    }
    while i < records.len()
        invariant
            i <= records@.len(),
            rv == rec_views(records@),
            pred == key_contains_pred(filter@),
            keep_all == (filter@.len() == 0),
            !keep_all ==> rec_views(out@) == rv.subrange(0, i as int).filter(pred),
            keep_all ==> rec_views(out@) == rv.subrange(0, i as int),
        decreases records@.len() - i,
    {
        let ghost oprev = out@;
        let keep = if keep_all {
            true
        } else {
            str_contains(records[i].key.as_str(), filter.as_str())
        };
        if keep {
            out.push(records[i].duplicate());
        }
        proof {
            let p = rv.subrange(0, i as int + 1);
            assert(p.drop_last() =~= rv.subrange(0, i as int));
            assert(p.last() == rv[i as int]);
            if keep_all {
                assert(rec_views(out@) =~= p);
            } else {
                reveal(Seq::filter);
                assert(pred(rv[i as int]) == keep);
                if keep {
                    assert(rec_views(out@) =~= rec_views(oprev).push(rv[i as int]));
                }
                assert(rec_views(out@) =~= p.filter(pred));
            }
        }
        i = i + 1;
    }
    proof {
        assert(rv.subrange(0, rv.len() as int) =~= rv);
    }
    out
}

/// Stable-sorts records by the cell at the sort column.
pub fn sort_by_cell(input: Vec<Record>, headers: &Vec<String>, col: usize, asc: bool) -> (out: Vec<
    Record,
>)
    ensures
        rec_views(out@) == sort_stable(
            view_le(str_views(headers@), col as int, asc),
            rec_views(input@),
        ),
{
    let ghost le = view_le(str_views(headers@), col as int, asc);
    let ghost iv = rec_views(input@);
    let mut out: Vec<Record> = Vec::new();
    let mut i: usize = 0;
    proof {
        assert(rec_views(out@) =~= sort_stable(le, iv.subrange(0, 0)));
    }
    while i < input.len()
        invariant
            i <= input@.len(),
            iv == rec_views(input@),
            le == view_le(str_views(headers@), col as int, asc),
            rec_views(out@) == sort_stable(le, iv.subrange(0, i as int)),
        decreases input@.len() - i,
    {
        let r = input[i].duplicate();
        let ghost ov = rec_views(out@);
        proof {
            assert(rec_views(out@).len() == out@.len());
        }
        let mut j: usize = 0;
        while j < out.len() && view_le_exec(&out[j], &r, headers, col, asc)
            invariant
                j <= out@.len(),
                ov == rec_views(out@),
                r@ == iv[i as int],
                i < iv.len(),
                forall|k: int| 0 <= k < j ==> le(#[trigger] ov[k], r@),
                le == view_le(str_views(headers@), col as int, asc),
            decreases out@.len() - j,
        {
            proof {
                assert(ov[j as int] == out@[j as int]@);
            }
            j = j + 1;
        }
        proof {
            if j < out@.len() {
                assert(ov[j as int] == out@[j as int]@);
                assert(!le(ov[j as int], r@));
            }
            lemma_insert_by_at(le, r@, ov, j as int);
        }
        let ghost prev = out@;
        out.insert(j, r);
        proof {
            assert(out@ == prev.insert(j as int, out@[j as int]));
            assert(out@.len() == prev.len() + 1);
            assert forall|m: int| 0 <= m < out@.len() implies rec_views(out@)[m] == insert_by(
                le,
                out@[j as int]@,
                ov,
            )[m] by {
                assert(insert_by(le, out@[j as int]@, ov) == ov.subrange(0, j as int) + seq![
                    out@[j as int]@,
                ] + ov.subrange(j as int, ov.len() as int));
                if m < j {
                    assert(out@[m] == prev[m]);
                } else if m > j {
                    assert(out@[m] == prev[m - 1]);
                }
            }
            lemma_insert_by_len(le, out@[j as int]@, ov);
            assert(rec_views(out@) =~= insert_by(le, out@[j as int]@, ov));
            let p = iv.subrange(0, i as int + 1);
            assert(p.drop_last() =~= iv.subrange(0, i as int));
            assert(p.last() == iv[i as int]);
            assert(out@[j as int]@ == iv[i as int]);
            assert(rec_views(out@) == sort_stable(le, p));
        }
        i = i + 1;
    }
    proof {
        assert(iv.subrange(0, iv.len() as int) =~= iv);
    }
    out
}

/// The whole pipeline: this type's snapshot records, filtered by the key
/// substring, then (when a sort column is set) stable-sorted by its cell.
pub open spec fn spec_pipeline(
    s: Seq<GroupV>,
    t: Seq<char>,
    f: Seq<char>,
    sort_col: Option<int>,
    asc: bool,
) -> Seq<RecordV> {
    let filtered = spec_filter_records(records_of(s, t), f);
    match sort_col {
        None => filtered,
        Some(c) => sort_stable(view_le(headers_of(s, t), c, asc), filtered),
    }
}

/// The page count over a filtered list: the ceiling of count over page
/// size (a zero page size counts as one), and at least one page so the
/// pager always has a valid page.
pub open spec fn spec_total_pages(n: nat, rpp: nat) -> nat {
    let r: nat = if rpp == 0 {
        1
    } else {
        rpp
    };
    if n == 0 {
        1
    } else {
        (((n - 1) as nat) / r + 1) as nat
    }
}

/// Computes the page count for a list of `count` records at `height`
/// rows per page.
pub fn total_pages_for(count: usize, height: usize) -> (t: usize)
    ensures
        t == spec_total_pages(count as nat, height as nat),
        t >= 1,
{
    let rpp: usize = if height == 0 {
        1
    } else {
        height
    };
    if count == 0 {
        1
    } else {
        (count - 1) / rpp + 1
    }
}

/// A page index the pager shows: the first and last page, a window of
/// three around the current page, the first six pages when the current
/// page is near the start, and the last six when it is near the end.
pub open spec fn page_visible(i: int, current: int, last: int) -> bool {
    i == 0 || i == last || (current - 3 <= i <= current + 3) || (current < 6 && i <= 5) || (current
        + 5 >= last && i >= last - 5)
}

/// The visible page indices, ascending: the pages of `0..total` that
/// `page_visible` keeps.
pub open spec fn spec_visible_pages(current: int, total: int) -> Seq<int> {
    if total <= 0 {
        Seq::empty()
    } else {
        Seq::new(total as nat, |i: int| i).filter(|i: int| page_visible(i, current, total - 1))
    }
}

fn page_visible_exec(i: usize, current: usize, last: usize) -> (r: bool)
    ensures
        r == page_visible(i as int, current as int, last as int),
{
    if i == 0 || i == last {
        return true;
    }
    let in_window = if i >= current {
        i - current <= 3
    } else {
        current - i <= 3
    };
    if in_window {
        return true;
    }
    if current < 6 && i <= 5 {
        return true;
    }
    let near_end_cur = if last >= current {
        last - current <= 5
    } else {
        true
    };
    let near_end_i = if last >= i {
        last - i <= 5
    } else {
        true
    };
    if near_end_cur && near_end_i {
        return true;
    }
    false
}

/// The ascending list of page indices the pager shows.
pub fn visible_pages(current: usize, total_pages: usize) -> (out: Vec<usize>)
    ensures
        out@.map_values(|u: usize| u as int) == spec_visible_pages(
            current as int,
            total_pages as int,
        ),
{
    let ghost target = spec_visible_pages(current as int, total_pages as int);
    let mut out: Vec<usize> = Vec::new();
    if total_pages == 0 {
        proof {
            assert(out@.map_values(|u: usize| u as int) =~= target);
        }
        return out;
    }
    let last = total_pages - 1;
    let ghost range = Seq::new(total_pages as nat, |i: int| i);
    let ghost pred = |i: int| page_visible(i, current as int, last as int);
    let mut p: usize = 0;
    proof {
        reveal(Seq::filter);
        assert(range.subrange(0, 0).filter(pred) =~= out@.map_values(|u: usize| u as int));
    }
    while p < total_pages
        invariant
            p <= total_pages,
            last == total_pages - 1,
            total_pages >= 1,
            range == Seq::new(total_pages as nat, |i: int| i),
            pred == (|i: int| page_visible(i, current as int, last as int)),
            out@.map_values(|u: usize| u as int) == range.subrange(0, p as int).filter(pred),
        decreases total_pages - p,
    {
        let ghost oprev = out@;
        let keep = page_visible_exec(p, current, last);
        if keep {
            out.push(p);
        }
        proof {
            reveal(Seq::filter);
            let q = range.subrange(0, p as int + 1);
            assert(q.drop_last() =~= range.subrange(0, p as int));
            assert(q.last() == p as int);
            assert(pred(p as int) == keep);
            if keep {
                assert(out@.map_values(|u: usize| u as int) =~= oprev.map_values(
                    |u: usize| u as int,
                ).push(p as int));
            }
            assert(out@.map_values(|u: usize| u as int) =~= q.filter(pred));
        }
        p = p + 1;
    }
    proof {
        assert(range.subrange(0, range.len() as int) =~= range);
    }
    out
}


/// An optional column index, viewed as a mathematical option.
pub open spec fn col_view(c: Option<usize>) -> Option<int> {
    match c {
        Some(v) => Some(v as int),
        None => None,
    }
}

/// The seeded width of a column: the header length plus one, plus three
/// for the sort arrow on the active sort column, capped at 2^32 - 1 so
/// that width sums stay bounded.
pub open spec fn spec_seed(h: Seq<char>, is_sort: bool) -> int {
    vstd::math::min(
        h.len() + 1 + if is_sort {
            3int
        } else {
            0int
        },
        0xffff_ffff,
    )
}

/// The width contribution of one cell: its length, plus two on the sort
/// column, capped at 50 to bound runaway columns.
pub open spec fn spec_cell_width(
    r: RecordV,
    headers: Seq<Seq<char>>,
    col: int,
    is_sort: bool,
) -> int {
    vstd::math::min(
        spec_cell_at(r, headers, col).len() + if is_sort {
            2int
        } else {
            0int
        },
        50,
    )
}

/// A column's width grown from its seed to the largest cell contribution.
pub open spec fn spec_grown(rs: Seq<RecordV>, headers: Seq<Seq<char>>, col: int, is_sort: bool) -> int
    decreases rs.len(),
{
    if rs.len() == 0 {
        spec_seed(headers[col], is_sort)
    } else {
        vstd::math::max(
            spec_grown(rs.drop_last(), headers, col, is_sort),
            spec_cell_width(rs.last(), headers, col, is_sort),
        )
    }
}

pub proof fn lemma_grown_bounds(rs: Seq<RecordV>, headers: Seq<Seq<char>>, col: int, is_sort: bool)
    ensures
        1 <= spec_grown(rs, headers, col, is_sort) <= 0xffff_ffff,
    decreases rs.len(),
{
    if rs.len() != 0 {
        lemma_grown_bounds(rs.drop_last(), headers, col, is_sort);
    }
}

/// The sum of the first `upto` grown column widths.
pub open spec fn spec_width_sum(
    headers: Seq<Seq<char>>,
    rs: Seq<RecordV>,
    sort_col: Option<int>,
    upto: int,
) -> int
    decreases upto,
{
    if upto <= 0 {
        0
    } else {
        spec_width_sum(headers, rs, sort_col, upto - 1) + spec_grown(
            rs,
            headers,
            upto - 1,
            sort_col == Some(upto - 1),
        )
    }
}

pub proof fn lemma_width_sum_bounds(
    headers: Seq<Seq<char>>,
    rs: Seq<RecordV>,
    sort_col: Option<int>,
    upto: int,
)
    requires
        upto >= 0,
    ensures
        upto <= spec_width_sum(headers, rs, sort_col, upto) <= upto * 0xffff_ffff,
        forall|i: int|
            0 <= i < upto ==> spec_grown(rs, headers, i, sort_col == Some(i)) <= spec_width_sum(
                headers,
                rs,
                sort_col,
                upto,
            ),
    decreases upto,
{
    if upto > 0 {
        lemma_width_sum_bounds(headers, rs, sort_col, upto - 1);
        lemma_grown_bounds(rs, headers, upto - 1, sort_col == Some(upto - 1));
    }
}

/// The column width layout: when the seeded widths fit in the available
/// width they are used directly; otherwise the available width is split
/// proportionally to the seeded widths, with a floor of 24 for the key
/// column and 14 for the rest.
pub open spec fn spec_col_widths(
    headers: Seq<Seq<char>>,
    rs: Seq<RecordV>,
    sort_col: Option<int>,
    available: u16,
) -> Seq<u16> {
    let n = headers.len() as int;
    let total = spec_width_sum(headers, rs, sort_col, n);
    if total < available {
        Seq::new(headers.len(), |i: int| spec_grown(rs, headers, i, sort_col == Some(i)) as u16)
    } else {
        Seq::new(
            headers.len(),
            |i: int|
                vstd::math::max(
                    if i == 0 {
                        24int
                    } else {
                        14int
                    },
                    (available * spec_grown(rs, headers, i, sort_col == Some(i))) / total,
                ) as u16,
        )
    }
}

/// Computes the column width layout for one type's headers and records.
pub fn column_widths(
    headers: &Vec<String>,
    records: &Vec<Record>,
    sort_column: Option<usize>,
    max_width: u16,
) -> (out: Vec<u16>)
    requires
        headers@.len() >= 1,
    ensures
        out@ == spec_col_widths(
            str_views(headers@),
            rec_views(records@),
            col_view(sort_column),
            max_width,
        ),
{
    let ghost hv = str_views(headers@);
    let ghost rv = rec_views(records@);
    let ghost cv = col_view(sort_column);
    let n = headers.len();
    let mut grown: Vec<u64> = Vec::new();
    let mut col: usize = 0;
    while col < n
        invariant
            col <= n,
            n == headers@.len(),
            hv == str_views(headers@),
            rv == rec_views(records@),
            cv == col_view(sort_column),
            grown@.len() == col,
            forall|k: int|
                0 <= k < col ==> #[trigger] grown@[k] as int == spec_grown(
                    rv,
                    hv,
                    k,
                    cv == Some(k),
                ),
        decreases n - col,
    {
        let is_sort = match sort_column {
            Some(c) => c == col,
            None => false,
        };
        proof {
            assert(is_sort == (cv == Some(col as int)));
        }
        let hlen = headers[col].as_str().unicode_len();
        let base: u128 = (hlen as u128) + 1 + (if is_sort {
            3
        } else {
            0
        });
        let mut w: u64 = if base > 0xffff_ffff {
            0xffff_ffff
        } else {
            base as u64
        };
        proof {
            assert(hv[col as int] == headers@[col as int]@);
            assert(w as int == spec_grown(rv.subrange(0, 0), hv, col as int, is_sort));
        }
        let mut ri: usize = 0;
        while ri < records.len()
            invariant
                ri <= records@.len(),
                rv == rec_views(records@),
                hv == str_views(headers@),
                col < headers@.len(),
                w as int == spec_grown(rv.subrange(0, ri as int), hv, col as int, is_sort),
            decreases records@.len() - ri,
        {
            let cell = cell_at(&records[ri], headers, col);
            let clen = cell.as_str().unicode_len();
            let c128: u128 = (clen as u128) + (if is_sort {
                2
            } else {
                0
            });
            let cw: u64 = if c128 > 50 {
                50
            } else {
                c128 as u64
            };
            if cw > w {
                w = cw;
            }
            proof {
                let p = rv.subrange(0, ri as int + 1);
                assert(p.drop_last() =~= rv.subrange(0, ri as int));
                assert(p.last() == rv[ri as int]);
                assert(rv[ri as int] == records@[ri as int]@);
                assert(cw as int == spec_cell_width(rv[ri as int], hv, col as int, is_sort));
            }
            ri = ri + 1;
        }
        proof {
            assert(rv.subrange(0, rv.len() as int) =~= rv);
        }
        grown.push(w);
        col = col + 1;
    }
    let mut total: u128 = 0;
    let mut i: usize = 0;
    while i < n
        invariant
            i <= n,
            n == headers@.len(),
            grown@.len() == n,
            hv == str_views(headers@),
            rv == rec_views(records@),
            cv == col_view(sort_column),
            forall|k: int|
                0 <= k < n ==> #[trigger] grown@[k] as int == spec_grown(
                    rv,
                    hv,
                    k,
                    cv == Some(k),
                ),
            total as int == spec_width_sum(hv, rv, cv, i as int),
            total <= (i as u128) * 0xffff_ffff,
        decreases n - i,
    {
        proof {
            lemma_grown_bounds(rv, hv, i as int, cv == Some(i as int));
        }
        total = total + (grown[i] as u128);
        i = i + 1;
    }
    proof {
        lemma_width_sum_bounds(hv, rv, cv, n as int);
    }
    let mut out: Vec<u16> = Vec::new();
    if total < max_width as u128 {
        let mut c: usize = 0;
        while c < n
            invariant
                c <= n,
                n == headers@.len(),
                grown@.len() == n,
                hv == str_views(headers@),
                rv == rec_views(records@),
                cv == col_view(sort_column),
                total as int == spec_width_sum(hv, rv, cv, n as int),
                total < max_width as u128,
                forall|k: int|
                    0 <= k < n ==> #[trigger] grown@[k] as int == spec_grown(
                        rv,
                        hv,
                        k,
                        cv == Some(k),
                    ),
                out@ == spec_col_widths(hv, rv, cv, max_width).subrange(0, c as int),
            decreases n - c,
        {
            proof {
                lemma_width_sum_bounds(hv, rv, cv, n as int);
                lemma_grown_bounds(rv, hv, c as int, cv == Some(c as int));
            }
            let w16: u16 = grown[c] as u16;
            let ghost oprev = out@;
            out.push(w16);
            proof {
                assert(out@ =~= spec_col_widths(hv, rv, cv, max_width).subrange(0, c as int + 1));
            }
            c = c + 1;
        }
    } else {
        let mut c: usize = 0;
        while c < n
            invariant
                c <= n,
                n == headers@.len(),
                grown@.len() == n,
                hv == str_views(headers@),
                rv == rec_views(records@),
                cv == col_view(sort_column),
                total as int == spec_width_sum(hv, rv, cv, n as int),
                total >= max_width as u128,
                n >= 1,
                forall|k: int|
                    0 <= k < n ==> #[trigger] grown@[k] as int == spec_grown(
                        rv,
                        hv,
                        k,
                        cv == Some(k),
                    ),
                out@ == spec_col_widths(hv, rv, cv, max_width).subrange(0, c as int),
            decreases n - c,
        {
            proof {
                lemma_width_sum_bounds(hv, rv, cv, n as int);
                lemma_grown_bounds(rv, hv, c as int, cv == Some(c as int));
                assert(total > 0);
                assert((max_width as int) * (grown@[c as int] as int) <= 65535 * 0xffff_ffff)
                    by (nonlinear_arith)
                    requires
                        max_width as int <= 65535,
                        0 <= grown@[c as int] as int <= 0xffff_ffff,
                ;
            }
            let alloc: u128 = (max_width as u128) * (grown[c] as u128) / total;
            proof {
                let mw = max_width as int;
                let g = grown@[c as int] as int;
                let t = total as int;
                vstd::arithmetic::mul::lemma_mul_inequality(g, t, mw);
                vstd::arithmetic::div_mod::lemma_div_is_ordered(mw * g, mw * t, t);
                vstd::arithmetic::div_mod::lemma_div_multiples_vanish(mw, t);
                assert(t * mw == mw * t) by (nonlinear_arith);
                assert((mw * g) / t <= mw);
            }
            let m: u16 = if c == 0 {
                24
            } else {
                14
            };
            let w16: u16 = if alloc > (m as u128) {
                alloc as u16
            } else {
                m
            };
            let ghost oprev = out@;
            out.push(w16);
            proof {
                assert(w16 as int == vstd::math::max(
                    if c as int == 0 {
                        24int
                    } else {
                        14int
                    },
                    (max_width as int * spec_grown(rv, hv, c as int, cv == Some(c as int)))
                        / (spec_width_sum(hv, rv, cv, n as int)),
                ));
                assert(out@ =~= spec_col_widths(hv, rv, cv, max_width).subrange(0, c as int + 1));
            }
            c = c + 1;
        }
    }
    proof {
        assert(spec_col_widths(hv, rv, cv, max_width).subrange(
            0,
            spec_col_widths(hv, rv, cv, max_width).len() as int,
        ) =~= spec_col_widths(hv, rv, cv, max_width));
        assert(out@.len() == n);
    }
    out
}


/// Absent-type law: for a type not present in the snapshot the pipeline
/// yields an empty row list, and pagination still reports one (empty)
/// page.
pub proof fn lemma_absent_type_view(
    s: Seq<GroupV>,
    t: Seq<char>,
    f: Seq<char>,
    sort_col: Option<int>,
    asc: bool,
    rpp: nat,
)
    requires
        !crate::data::has_type(s, t),
    ensures
        spec_pipeline(s, t, f, sort_col, asc).len() == 0,
        spec_total_pages(spec_pipeline(s, t, f, sort_col, asc).len(), rpp) == 1,
{
    crate::data::lemma_absent_type_empty(s, t);
    reveal(Seq::filter);
    assert(spec_filter_records(records_of(s, t), f).len() == 0);
    match sort_col {
        None => {},
        Some(c) => {
            assert(sort_stable(view_le(headers_of(s, t), c, asc), spec_filter_records(
                records_of(s, t),
                f,
            )).len() == 0);
        },
    }
}

/// Sort correctness law (ordering and permutation): with a sort column
/// set, adjacent rows of the pipeline's result are ordered by the cell
/// comparator, and the result carries exactly the filtered records.
pub proof fn lemma_sort_correct(s: Seq<GroupV>, t: Seq<char>, f: Seq<char>, col: int, asc: bool)
    ensures
        crate::sorting::sorted_le(
            view_le(headers_of(s, t), col, asc),
            spec_pipeline(s, t, f, Some(col), asc),
        ),
        spec_pipeline(s, t, f, Some(col), asc).to_multiset() == spec_filter_records(
            records_of(s, t),
            f,
        ).to_multiset(),
{
    let le = view_le(headers_of(s, t), col, asc);
    let filtered = spec_filter_records(records_of(s, t), f);
    assert forall|i: int, j: int|
        0 <= i < filtered.len() && 0 <= j < filtered.len() implies le(
        #[trigger] filtered[i],
        #[trigger] filtered[j],
    ) || le(filtered[j], filtered[i]) by {
        crate::strings::lemma_cell_le_total(
            spec_cell_at(filtered[i], headers_of(s, t), col),
            spec_cell_at(filtered[j], headers_of(s, t), col),
        );
    }
    crate::sorting::lemma_sort_stable_sorted(le, filtered);
    crate::sorting::lemma_sort_stable_multiset(le, filtered);
}

/// Sort correctness law (numeric and lexicographic reading): on a column
/// where every cell of the result parses as a number, ascending sort
/// yields numerically non-decreasing values and descending sort
/// non-increasing ones; on a column where no cell parses as a number the
/// ascending order is lexicographic on the raw cell text.
pub proof fn lemma_sort_numeric(s: Seq<GroupV>, t: Seq<char>, f: Seq<char>, col: int)
    ensures
        ({
            let hs = headers_of(s, t);
            let up = spec_pipeline(s, t, f, Some(col), true);
            (forall|k: int|
                0 <= k < up.len() ==> crate::strings::spec_parse_i64(
                    spec_cell_at(#[trigger] up[k], hs, col),
                ) is Some) ==> (forall|i: int|
                0 <= i < up.len() - 1 ==> crate::strings::spec_parse_i64(
                    spec_cell_at(#[trigger] up[i], hs, col),
                ).unwrap() <= crate::strings::spec_parse_i64(
                    spec_cell_at(up[i + 1], hs, col),
                ).unwrap())
        }),
        ({
            let hs = headers_of(s, t);
            let down = spec_pipeline(s, t, f, Some(col), false);
            (forall|k: int|
                0 <= k < down.len() ==> crate::strings::spec_parse_i64(
                    spec_cell_at(#[trigger] down[k], hs, col),
                ) is Some) ==> (forall|i: int|
                0 <= i < down.len() - 1 ==> crate::strings::spec_parse_i64(
                    spec_cell_at(#[trigger] down[i], hs, col),
                ).unwrap() >= crate::strings::spec_parse_i64(
                    spec_cell_at(down[i + 1], hs, col),
                ).unwrap())
        }),
        ({
            let hs = headers_of(s, t);
            let up = spec_pipeline(s, t, f, Some(col), true);
            (forall|k: int|
                0 <= k < up.len() ==> crate::strings::spec_parse_i64(
                    spec_cell_at(#[trigger] up[k], hs, col),
                ) is None) ==> (forall|i: int|
                0 <= i < up.len() - 1 ==> crate::strings::lex_le(
                    spec_cell_at(#[trigger] up[i], hs, col),
                    spec_cell_at(up[i + 1], hs, col),
                ))
        }),
{
    lemma_sort_correct(s, t, f, col, true);
    lemma_sort_correct(s, t, f, col, false);
    let hs = headers_of(s, t);
    let up = spec_pipeline(s, t, f, Some(col), true);
    let down = spec_pipeline(s, t, f, Some(col), false);
    assert forall|i: int| 0 <= i < up.len() - 1 implies view_le(hs, col, true)(
        #[trigger] up[i],
        up[i + 1],
    ) by {}
    assert forall|i: int| 0 <= i < down.len() - 1 implies view_le(hs, col, false)(
        #[trigger] down[i],
        down[i + 1],
    ) by {}
}

} // verus!
