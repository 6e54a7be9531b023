//! The navigation session state: which pane has focus, which type and
//! row are selected, the filter text, the sort spec and the current page,
//! together with the pipeline queries the renderer reads.

use vstd::prelude::*;
use vstd::string::*;
use crate::models::{Record, RecordV, rec_views, str_views};
use crate::data::{DataManager, GroupV, has_type, records_of, headers_of, find_group};
use crate::view::{
    spec_pipeline, spec_total_pages, spec_visible_pages, total_pages_for, visible_pages,
    filter_records, sort_by_cell, col_view, spec_col_widths, column_widths,
};

verus! {

/// The interaction mode of the navigation state machine.
#[derive(Clone, Copy, Debug, PartialEq, Eq, Structural)]
pub enum Focus {
    /// Free-text filter entry.
    Input,
    /// Choosing a record type.
    TableSelect,
    /// Browsing rows of the selected type.
    Table,
    /// Browsing page buttons.
    Pages,
}

/// One navigation session. `selected_row` indexes the filtered and sorted
/// row list of the selected type, never the raw snapshot list, and is
/// re-clamped whenever that list changes.
pub struct App {
    pub data_manager: DataManager,
    pub input: String,
    pub focus: Focus,
    pub selected_table: Option<String>,
    pub selected_row: Option<usize>,
    pub show_raw_data: Option<String>,
    pub should_quit: bool,
    pub last_click: Option<(u64, String, usize)>,
    pub table_select_index: usize,
    pub sort_column: Option<usize>,
    pub sort_ascending: bool,
    pub current_page: usize,
    pub page_focus: bool,
    pub rows_per_page: usize,
}

impl App {
    /// The filtered and sorted row list of the selected type under the
    /// current filter and sort configuration; empty with no selection.
    pub open spec fn spec_filtered(self) -> Seq<RecordV> {
        match self.selected_table {
            Some(t) => spec_pipeline(
                self.data_manager.snapshot@,
                t@,
                self.input@,
                col_view(self.sort_column),
                self.sort_ascending,
            ),
            None => Seq::empty(),
        }
    }

    pub open spec fn spec_flen(self) -> nat {
        self.spec_filtered().len()
    }

    /// The page count of the current view.
    pub open spec fn spec_pages(self) -> nat {
        spec_total_pages(self.spec_flen(), self.rows_per_page as nat)
    }

    /// Session well-formedness: the page size is positive, the current
    /// page is always a valid page of the current view, the selected row
    /// (when set) lies in the filtered list and on the current page, and
    /// with no selected type there is no selected row and the first page
    /// shows.
    pub open spec fn wf(self) -> bool {
        &&& self.rows_per_page >= 1
        &&& (self.current_page as nat) < self.spec_pages()
        &&& match self.selected_row {
            Some(r) => r < self.spec_flen() && r as int / (self.rows_per_page as int)
                == self.current_page as int,
            None => true,
        }
        &&& (self.selected_table is None ==> self.selected_row is None && self.current_page == 0)
    }

    /// A fresh session: nothing selected, filter empty, type selection
    /// focused, first page.
    pub fn new() -> (r: App)
        ensures
            r.wf(),
            r.data_manager.snapshot@ == Seq::<GroupV>::empty(),
            r.input@.len() == 0,
            r.focus == Focus::TableSelect,
            r.selected_table is None,
            r.selected_row is None,
            r.show_raw_data is None,
            !r.should_quit,
            r.last_click is None,
            r.table_select_index == 0,
            r.sort_column is None,
            r.sort_ascending,
            r.current_page == 0,
            !r.page_focus,
            r.rows_per_page == 1,
    {
        App {
            data_manager: DataManager::new(),
            input: String::new(),
            focus: Focus::TableSelect,
            selected_table: None,
            selected_row: None,
            show_raw_data: None,
            should_quit: false,
            last_click: None,
            table_select_index: 0,
            sort_column: None,
            sort_ascending: true,
            current_page: 0,
            page_focus: false,
            rows_per_page: 1,
        }
    }

    /// The filtered and (when a sort column is set) sorted records of one
    /// type: the whole view pipeline short of pagination.
    pub fn get_filtered_records(&self, record_type: &String) -> (out: Vec<Record>)
        ensures
            rec_views(out@) == spec_pipeline(
                self.data_manager.snapshot@,
                record_type@,
                self.input@,
                col_view(self.sort_column),
                self.sort_ascending,
            ),
    {
        let ghost sv = self.data_manager.snapshot@;
        let base: Vec<Record> = match find_group(&self.data_manager.snapshot.groups, record_type) {
            Some(i) => filter_records(&self.data_manager.snapshot.groups[i].records, &self.input),
            None => {
                proof {
                    crate::data::lemma_absent_type_empty(sv, record_type@);
                    if self.input@.len() > 0 {
                        reveal(Seq::filter);
                        assert(Seq::<RecordV>::empty().filter(
                            crate::view::key_contains_pred(self.input@),
                        ) =~= Seq::<RecordV>::empty());
                    }
                }
                Vec::new()
            },
        };
        proof {
            assert(rec_views(base@) == crate::view::spec_filter_records(
                records_of(sv, record_type@),
                self.input@,
            ));
        }
        match self.sort_column {
            Some(c) => {
                match find_group(&self.data_manager.snapshot.groups, record_type) {
                    Some(i) => sort_by_cell(
                        base,
                        &self.data_manager.snapshot.groups[i].headers,
                        c,
                        self.sort_ascending,
                    ),
                    None => {
                        let empty_headers: Vec<String> = Vec::new();
                        proof {
                            crate::data::lemma_absent_type_empty(sv, record_type@);
                            assert(str_views(empty_headers@) =~= headers_of(sv, record_type@));
                        }
                        sort_by_cell(base, &empty_headers, c, self.sort_ascending)
                    },
                }
            },
            None => base,
        }
    }

    /// The page count of one type's filtered view at the given page
    /// height: the ceiling of the row count over the height, and at least
    /// one page even when empty.
    pub fn get_total_pages(&self, record_type: &String, height: u16) -> (t: usize)
        ensures
            t == spec_total_pages(
                spec_pipeline(
                    self.data_manager.snapshot@,
                    record_type@,
                    self.input@,
                    col_view(self.sort_column),
                    self.sort_ascending,
                ).len(),
                height as nat,
            ),
            t >= 1,
    {
        let records = self.get_filtered_records(record_type);
        proof {
            assert(rec_views(records@).len() == records@.len());
        }
        total_pages_for(records.len(), height as usize)
    }


    /// The column width layout of one type's table. A type absent from
    /// the snapshot gets the whole width as a single column.
    pub fn calculate_column_widths(&self, record_type: &String, max_width: u16) -> (out: Vec<u16>)
        ensures
            has_type(self.data_manager.snapshot@, record_type@) ==> out@ == spec_col_widths(
                headers_of(self.data_manager.snapshot@, record_type@),
                records_of(self.data_manager.snapshot@, record_type@),
                col_view(self.sort_column),
                max_width,
            ),
            !has_type(self.data_manager.snapshot@, record_type@) ==> out@ == seq![max_width],
    {
        match find_group(&self.data_manager.snapshot.groups, record_type) {
            Some(i) => {
                let g = &self.data_manager.snapshot.groups[i];
                if g.headers.len() == 0 {
                    let none: Vec<u16> = Vec::new();
                    proof {
                        assert(headers_of(self.data_manager.snapshot@, record_type@).len() == 0);
                        assert(none@ =~= spec_col_widths(
                            headers_of(self.data_manager.snapshot@, record_type@),
                            records_of(self.data_manager.snapshot@, record_type@),
                            col_view(self.sort_column),
                            max_width,
                        ));
                    }
                    none
                } else {
                    column_widths(&g.headers, &g.records, self.sort_column, max_width)
                }
            },
            None => {
                let mut one: Vec<u16> = Vec::new();
                one.push(max_width);
                proof {
                    assert(one@ =~= seq![max_width]);
                }
                one
            },
        }
    }


    /// The headers of the selected type's group; empty with no selection
    /// or an absent type.
    pub open spec fn spec_sel_headers(self) -> Seq<Seq<char>> {
        match self.selected_table {
            Some(t) => headers_of(self.data_manager.snapshot@, t@),
            None => Seq::empty(),
        }
    }

    /// First row index of the current page, clamped into the view.
    pub open spec fn spec_page_lo(self) -> int {
        let rpp = if self.rows_per_page == 0 {
            1int
        } else {
            self.rows_per_page as int
        };
        vstd::math::min(self.current_page * rpp, self.spec_flen() as int)
    }

    /// One-past-the-last row index of the current page, clamped.
    pub open spec fn spec_page_hi(self) -> int {
        let rpp = if self.rows_per_page == 0 {
            1int
        } else {
            self.rows_per_page as int
        };
        vstd::math::min(self.spec_page_lo() + rpp, self.spec_flen() as int)
    }

    /// The rows the renderer draws for the current page: the display rows
    /// of the filtered view's slice `[page * size, page * size + size)`,
    /// under the selected type's headers. Empty when nothing is selected
    /// or the type has no headers.
    pub fn page_rows(&self) -> (rows: Vec<Vec<String>>)
        ensures
            self.spec_sel_headers().len() >= 1 ==> rows@.map_values(|row: Vec<String>| str_views(row@))
                == self.spec_filtered().subrange(self.spec_page_lo(), self.spec_page_hi())
                .map_values(|r: RecordV| crate::models::spec_row(r, self.spec_sel_headers())),
            self.spec_sel_headers().len() == 0 ==> rows@.len() == 0,
    {
        let mut rows: Vec<Vec<String>> = Vec::new();
        let table = match &self.selected_table {
            Some(t) => t.clone(),
            None => {
                return rows;
            },
        };
        let mut headers: Vec<String> = Vec::new();
        match self.data_manager.get_headers(&table) {
            Some(h) => {
                let mut k: usize = 0;
                while k < h.len()
                    invariant
                        k <= h@.len(),
                        str_views(headers@) == str_views(h@).subrange(0, k as int),
                    decreases h@.len() - k,
                {
                    let ghost hprev = headers@;
                    proof {
                        assert(str_views(hprev).len() == hprev.len());
                        assert(hprev.len() == k as int);
                    }
                    headers.push(h[k].clone());
                    proof {
                        assert(headers@ == hprev.push(headers@.last()));
                        assert forall|m: int|
                            0 <= m < headers@.len() implies str_views(headers@)[m] == str_views(
                            h@,
                        ).subrange(0, k as int + 1)[m] by {
                            if m < k {
                                assert(headers@[m] == hprev[m]);
                                assert(str_views(hprev)[m] == str_views(h@).subrange(
                                    0,
                                    k as int,
                                )[m]);
                            } else {
                                assert(headers@[m] == headers@.last());
                            }
                        }
                        assert(str_views(headers@) =~= str_views(h@).subrange(0, k as int + 1));
                    }
                    k = k + 1;
                }
                proof {
                    assert(str_views(h@).subrange(0, h@.len() as int) =~= str_views(h@));
                }
            },
            None => {
                proof {
                    crate::data::lemma_absent_type_empty(
                        self.data_manager.snapshot@,
                        table@,
                    );
                }
            },
        }
        proof {
            assert(str_views(headers@) == self.spec_sel_headers());
        }
        if headers.len() == 0 {
            return rows;
        }
        let filtered = self.get_filtered_records(&table);
        proof {
            assert(rec_views(filtered@).len() == filtered@.len());
        }
        let rpp: usize = if self.rows_per_page == 0 {
            1
        } else {
            self.rows_per_page
        };
        proof {
            assert((self.current_page as int) * (rpp as int) <= 0xffff_ffff_ffff_ffff
                * 0xffff_ffff_ffff_ffff) by (nonlinear_arith)
                requires
                    0 <= self.current_page as int <= 0xffff_ffff_ffff_ffff,
                    0 <= rpp as int <= 0xffff_ffff_ffff_ffff,
            ;
        }
        let lo128: u128 = (self.current_page as u128) * (rpp as u128);
        let lo: usize = if lo128 >= filtered.len() as u128 {
            filtered.len()
        } else {
            (self.current_page) * rpp
        };
        let hi: usize = if filtered.len() - lo < rpp {
            filtered.len()
        } else {
            lo + rpp
        };
        proof {
            assert(lo as int == self.spec_page_lo());
            assert(hi as int == self.spec_page_hi());
        }
        let ghost fv = self.spec_filtered();
        let ghost hs = self.spec_sel_headers();
        let mut i: usize = lo;
        proof {
            assert(rows@.map_values(|row: Vec<String>| str_views(row@)) =~= fv.subrange(
                lo as int,
                lo as int,
            ).map_values(|r: RecordV| crate::models::spec_row(r, hs)));
        }
        while i < hi
            invariant
                lo <= i <= hi,
                hi <= filtered@.len(),
                rec_views(filtered@) == fv,
                str_views(headers@) == hs,
                headers@.len() >= 1,
                hs.len() >= 1,
                rows@.map_values(|row: Vec<String>| str_views(row@)) == fv.subrange(
                    lo as int,
                    i as int,
                ).map_values(|r: RecordV| crate::models::spec_row(r, hs)),
            decreases hi - i,
        {
            let ghost rprev = rows@;
            proof {
                assert(rprev.map_values(|row: Vec<String>| str_views(row@)).len() == rprev.len());
                assert(rprev.len() == i - lo);
            }
            let row = filtered[i].to_table_row(&headers);
            rows.push(row);
            proof {
                assert(rec_views(filtered@)[i as int] == filtered@[i as int]@);
                assert(rows@ == rprev.push(rows@.last()));
                assert(str_views(rows@.last()@) == crate::models::spec_row(fv[i as int], hs));
                assert forall|m: int|
                    0 <= m < rows@.len() implies str_views((#[trigger] rows@[m])@)
                    == crate::models::spec_row(fv[lo + m], hs) by {
                    if m < i - lo {
                        assert(rows@[m] == rprev[m]);
                        assert(rprev.map_values(|row: Vec<String>| str_views(row@))[m]
                            == fv.subrange(lo as int, i as int).map_values(
                            |r: RecordV| crate::models::spec_row(r, hs),
                        )[m]);
                        assert(str_views(rprev[m]@) == crate::models::spec_row(
                            fv.subrange(lo as int, i as int)[m],
                            hs,
                        ));
                    } else {
                        assert(rows@[m] == rows@.last());
                    }
                }
                assert(rows@.map_values(|row: Vec<String>| str_views(row@)) =~= fv.subrange(
                    lo as int,
                    i as int + 1,
                ).map_values(|r: RecordV| crate::models::spec_row(r, hs)));
            }
            i = i + 1;
        }
        rows
    }

    /// The page indices the pager shows for this many pages, ascending.
    pub fn visible_page_indices(&self, total_pages: usize) -> (out: Vec<usize>)
        ensures
            out@.map_values(|u: usize| u as int) == spec_visible_pages(
                self.current_page as int,
                total_pages as int,
            ),
    {
        visible_pages(self.current_page, total_pages)
    }
}

} // verus!
