//! The navigation state machine: logical input events and the transition
//! rules they drive. Every transition re-clamps the selection and the
//! current page to the view it produces, so the pagination bounds of
//! `App::wf` hold after each step.

use vstd::prelude::*;
use vstd::string::*;
use vstd::arithmetic::div_mod::{lemma_div_is_ordered, lemma_div_multiples_vanish,
    lemma_fundamental_div_mod};
use vstd::arithmetic::mul::lemma_mul_inequality;
use crate::app::{App, Focus};
use crate::data::{GroupV, Snapshot, find_group};
use crate::models::{RecordV, rec_views, str_views};
use crate::strings::{seq_contains, str_contains, str_eq, hex_dump, hex_string};
use crate::view::{spec_total_pages, total_pages_for};

verus! {

/// A logical input event, decoded from raw key or pointer input outside
/// the library.
pub enum AppEvent {
    /// Terminate the whole session; honored even inside the modal.
    ForceQuit,
    /// Leave the current mode (close the modal, or fall back to type
    /// selection).
    Cancel,
    /// Cycle focus forward (filter entry, type list or table, pages).
    SwitchForward,
    /// Step to the previous type in sorted order, or back to the filter.
    SwitchBackward,
    /// Commit the highlighted type.
    Confirm,
    MoveUp,
    MoveDown,
    PageLeft,
    PageRight,
    /// Open the raw-bytes view of the selected record.
    Inspect,
    /// Ask for the selected record to be deleted from the store.
    DeleteRequest,
    InputChar(char),
    Backspace,
    /// Pointer interaction with a header cell.
    SortToggle(usize),
    /// Pointer activation of an absolute row index of the current view.
    Activate(usize),
    /// Pointer activation of a page button.
    PageSelect(usize),
    /// Pointer click into the filter entry area.
    FocusInput,
    /// Pointer click on a row of the type list.
    SelectTypeAt(usize),
}

/// What the caller must do after a transition: nothing, or delete this
/// key from the store and report back through `apply_delete_result`.
pub enum Effect {
    Nothing,
    DeleteKey(String),
}

/// Relies on String::push: appends exactly the one character.
#[verifier::external_body]
fn push_char(s: &mut String, c: char)
    ensures
        final(s)@ == old(s)@.push(c),
{
    s.push(c);
}

/// A valid page's first row lies inside the list, and is on that page.
pub proof fn lemma_page_start(flen: nat, rpp: nat, page: nat)
    requires
        rpp >= 1,
        flen >= 1,
        page < spec_total_pages(flen, rpp),
    ensures
        page * rpp < flen,
        (page * rpp) as int / (rpp as int) == page as int,
{
    let p = page as int;
    let r = rpp as int;
    let n = flen as int;
    assert(p <= (n - 1) / r);
    lemma_mul_inequality(p, (n - 1) / r, r);
    lemma_fundamental_div_mod(n - 1, r);
    assert(((n - 1) / r) * r <= n - 1) by {
        assert(n - 1 == r * ((n - 1) / r) + (n - 1) % r);
        assert((n - 1) % r >= 0) by {
            vstd::arithmetic::div_mod::lemma_mod_bound(n - 1, r);
        }
        assert(r * ((n - 1) / r) == ((n - 1) / r) * r) by (nonlinear_arith);
    }
    assert(p * r <= n - 1);
    lemma_div_multiples_vanish(p, r);
    assert(r * p == p * r) by (nonlinear_arith);
    assert((p * r) / r == p);
}

/// A row index below the list length lies on a valid page.
pub proof fn lemma_row_page(flen: nat, rpp: nat, row: nat)
    requires
        rpp >= 1,
        row < flen,
    ensures
        (row as int) / (rpp as int) < spec_total_pages(flen, rpp),
{
    lemma_div_is_ordered(row as int, flen as int - 1, rpp as int);
}

/// The record types offered for selection: the snapshot's type names (in
/// sorted order) that contain the filter text; all of them when the
/// filter is empty.
pub open spec fn spec_visible_types(s: Seq<GroupV>, f: Seq<char>) -> Seq<Seq<char>> {
    let names = s.map_values(|g: GroupV| g.record_type);
    if f.len() == 0 {
        names
    } else {
        names.filter(|n: Seq<char>| seq_contains(n, f))
    }
}

/// The first index of `x` in `s`, or `s.len()` when `x` is absent.
pub open spec fn first_index_of(s: Seq<Seq<char>>, x: Seq<char>) -> int
    decreases s.len(),
{
    if s.len() == 0 {
        0
    } else if s[0] == x {
        0
    } else {
        1 + first_index_of(s.drop_first(), x)
    }
}

pub proof fn lemma_first_index_of(s: Seq<Seq<char>>, x: Seq<char>)
    ensures
        0 <= first_index_of(s, x) <= s.len(),
        first_index_of(s, x) < s.len() ==> s[first_index_of(s, x)] == x,
        forall|k: int| 0 <= k < first_index_of(s, x) ==> s[k] != x,
    decreases s.len(),
{
    if s.len() != 0 && s[0] != x {
        lemma_first_index_of(s.drop_first(), x);
        assert forall|k: int| 0 <= k < first_index_of(s, x) implies s[k] != x by {
            if k > 0 {
                assert(s.drop_first()[k - 1] == s[k]);
            }
        }
        if first_index_of(s, x) < s.len() {
            assert(s.drop_first()[first_index_of(s, x) - 1] == s[first_index_of(s, x)]);
        }
    }
}

/// The nearest valid row of a view with `n` rows, from an earlier
/// selection: kept while still in range, moved to the last row when past
/// the end, cleared when the view is empty; no selection stays none.
pub open spec fn spec_row_clamp(r: Option<usize>, n: nat) -> Option<usize> {
    match r {
        Some(v) => if n == 0 {
            None::<usize>
        } else if v < n {
            Some(v)
        } else {
            Some((n - 1) as usize)
        },
        None => None::<usize>,
    }
}

impl App {
    /// Lists the record types offered for selection under the current
    /// filter.
    pub fn visible_types(&self) -> (out: Vec<String>)
        ensures
            str_views(out@) == spec_visible_types(self.data_manager.snapshot@, self.input@),
    {
        let ghost sv = self.data_manager.snapshot@;
        let ghost names = sv.map_values(|g: GroupV| g.record_type);
        let ghost pred = |n: Seq<char>| seq_contains(n, self.input@);
        let keep_all = self.input.as_str().unicode_len() == 0;
        let mut out: Vec<String> = Vec::new();
        let mut i: usize = 0;
        proof {
            reveal(Seq::filter);
            assert(str_views(out@) =~= names.subrange(0, 0));
            assert(str_views(out@) =~= names.subrange(0, 0).filter(pred));
        }
        while i < self.data_manager.snapshot.groups.len()
            invariant
                i <= self.data_manager.snapshot.groups@.len(),
                sv == self.data_manager.snapshot@,
                sv.len() == self.data_manager.snapshot.groups@.len(),
                names == sv.map_values(|g: GroupV| g.record_type),
                pred == (|n: Seq<char>| seq_contains(n, self.input@)),
                keep_all == (self.input@.len() == 0),
                keep_all ==> str_views(out@) == names.subrange(0, i as int),
                !keep_all ==> str_views(out@) == names.subrange(0, i as int).filter(pred),
            decreases self.data_manager.snapshot.groups@.len() - i,
        {
            let ghost oprev = out@;
            proof {
                assert(sv[i as int] == self.data_manager.snapshot.groups@[i as int]@);
                assert(names[i as int] == sv[i as int].record_type);
            }
            let keep = if keep_all {
                true
            } else {
                str_contains(self.data_manager.snapshot.groups[i].record_type.as_str(),
                    self.input.as_str())
            };
            if keep {
                out.push(self.data_manager.snapshot.groups[i].record_type.clone());
            }
            proof {
                let p = names.subrange(0, i as int + 1);
                assert(p.drop_last() =~= names.subrange(0, i as int));
                assert(p.last() == names[i as int]);
                if keep_all {
                    assert(str_views(out@) =~= p);
                } else {
                    reveal(Seq::filter);
                    assert(pred(names[i as int]) == keep);
                    if keep {
                        assert(str_views(out@) =~= str_views(oprev).push(names[i as int]));
                    }
                    assert(str_views(out@) =~= p.filter(pred));
                }
            }
            i = i + 1;
        }
        proof {
            assert(names.subrange(0, names.len() as int) =~= names);
        }
        out
    }

    /// The length of the current filtered row list.
    fn current_flen(&self) -> (n: usize)
        ensures
            n == self.spec_flen(),
    {
        match &self.selected_table {
            Some(t) => {
                let v = self.get_filtered_records(t);
                proof {
                    assert(rec_views(v@).len() == v@.len());
                }
                v.len()
            },
            None => 0,
        }
    }

    /// The current page count.
    fn current_pages(&self) -> (t: usize)
        requires
            self.rows_per_page >= 1,
        ensures
            t == self.spec_pages(),
            t >= 1,
    {
        let n = self.current_flen();
        total_pages_for(n, self.rows_per_page)
    }

    /// Everything outside the selection cursor is untouched.
    pub open spec fn same_but_cursor(self, o: App) -> bool {
        &&& self.data_manager.snapshot@ == o.data_manager.snapshot@
        &&& self.input == o.input
        &&& self.focus == o.focus
        &&& self.selected_table == o.selected_table
        &&& self.show_raw_data == o.show_raw_data
        &&& self.should_quit == o.should_quit
        &&& self.last_click == o.last_click
        &&& self.table_select_index == o.table_select_index
        &&& self.sort_column == o.sort_column
        &&& self.sort_ascending == o.sort_ascending
        &&& self.page_focus == o.page_focus
        &&& self.rows_per_page == o.rows_per_page
    }

    /// Everything but the focus is untouched.
    pub open spec fn same_but_focus(self, o: App) -> bool {
        &&& self.data_manager.snapshot@ == o.data_manager.snapshot@
        &&& self.input == o.input
        &&& self.selected_table == o.selected_table
        &&& self.selected_row == o.selected_row
        &&& self.current_page == o.current_page
        &&& self.show_raw_data == o.show_raw_data
        &&& self.should_quit == o.should_quit
        &&& self.last_click == o.last_click
        &&& self.table_select_index == o.table_select_index
        &&& self.sort_column == o.sort_column
        &&& self.sort_ascending == o.sort_ascending
        &&& self.page_focus == o.page_focus
        &&& self.rows_per_page == o.rows_per_page
    }

    /// Re-clamps the selected row and current page to the current view:
    /// the row moves to the nearest valid index (cleared when the view is
    /// empty), and the page follows the row, or is clamped itself when no
    /// row is selected.
    pub fn reclamp(&mut self)
        requires
            old(self).rows_per_page >= 1,
            old(self).selected_table is None ==> old(self).current_page == 0 && old(self).selected_row is None,
        ensures
            final(self).wf(),
            final(self).same_but_cursor(*old(self)),
            final(self).selected_row == spec_row_clamp(
                old(self).selected_row,
                old(self).spec_flen(),
            ),
            final(self).current_page as int == (match final(self).selected_row {
                Some(r) => r as int / (old(self).rows_per_page as int),
                None => if (old(self).current_page as nat) < old(self).spec_pages() {
                    old(self).current_page as int
                } else {
                    old(self).spec_pages() as int - 1
                },
            }),
    {
        let flen = self.current_flen();
        let total = self.current_pages();
        if flen == 0 {
            self.selected_row = None;
            if self.current_page != 0 {
                self.current_page = 0;
            }
            proof {
                assert(self.spec_flen() == old(self).spec_flen());
            }
        } else {
            match self.selected_row {
                Some(r) => {
                    let r2: usize = if r < flen {
                        r
                    } else {
                        flen - 1
                    };
                    self.selected_row = Some(r2);
                    self.current_page = r2 / self.rows_per_page;
                    proof {
                        lemma_row_page(flen as nat, self.rows_per_page as nat, r2 as nat);
                    }
                },
                None => {
                    if self.current_page >= total {
                        self.current_page = total - 1;
                    }
                    proof {
                        if old(self).selected_table is None {
                            assert(final(self).current_page == 0);
                        }
                    }
                },
            }
        }
    }

    /// Commits a type as the selection: sort state cleared, first page,
    /// first row of its filtered view highlighted (none when empty), row
    /// browsing focused.
    fn select_type(&mut self, name: String)
        requires
            old(self).rows_per_page >= 1,
        ensures
            final(self).wf(),
            final(self).focus == Focus::Table,
            (final(self).selected_table matches Some(n) && n@ == name@),
            final(self).sort_column is None,
            final(self).sort_ascending,
            final(self).current_page == 0,
            final(self).selected_row == (if final(self).spec_flen() == 0 {
                None::<usize>
            } else {
                Some(0usize)
            }),
            final(self).data_manager.snapshot@ == old(self).data_manager.snapshot@,
            final(self).input == old(self).input,
            final(self).show_raw_data == old(self).show_raw_data,
            final(self).should_quit == old(self).should_quit,
            final(self).rows_per_page == old(self).rows_per_page,
            final(self).table_select_index == old(self).table_select_index,
    {
        self.selected_table = Some(name);
        self.sort_column = None;
        self.sort_ascending = true;
        self.current_page = 0;
        self.selected_row = None;
        self.focus = Focus::Table;
        let flen = self.current_flen();
        if flen > 0 {
            self.selected_row = Some(0);
        }
    }

    /// *Cancel*: from row browsing, filter entry or page browsing, fall
    /// back to type selection and clear the selection.
    pub fn cancel(&mut self)
        requires
            old(self).wf(),
        ensures
            final(self).wf(),
            old(self).focus != Focus::TableSelect ==> (final(self).focus == Focus::TableSelect
                && (final(self).selected_table is None) && (final(self).selected_row is None)
                && final(self).current_page == 0),
            old(self).focus == Focus::TableSelect ==> *final(self) == *old(self),
            final(self).data_manager.snapshot@ == old(self).data_manager.snapshot@,
            final(self).input == old(self).input,
            final(self).should_quit == old(self).should_quit,
            final(self).rows_per_page == old(self).rows_per_page,
    {
        match self.focus {
            Focus::TableSelect => {},
            _ => {
                self.focus = Focus::TableSelect;
                self.selected_table = None;
                self.selected_row = None;
                self.current_page = 0;
            },
        }
    }

    /// *Switch-Focus-Forward*: filter entry hands to the type list (or
    /// the table once a type is selected), the table to the pager, the
    /// pager and the type list back to the filter.
    pub fn switch_focus_forward(&mut self)
        requires
            old(self).wf(),
        ensures
            final(self).wf(),
            final(self).data_manager.snapshot@ == old(self).data_manager.snapshot@,
            final(self).input == old(self).input,
            final(self).should_quit == old(self).should_quit,
            final(self).rows_per_page == old(self).rows_per_page,
            old(self).focus == Focus::Table ==> (final(self).focus == Focus::Pages
                && final(self).page_focus),
            old(self).focus == Focus::Pages ==> (final(self).focus == Focus::Input
                && !final(self).page_focus),
            old(self).focus == Focus::TableSelect ==> (final(self).focus == Focus::Input
                && (final(self).selected_table is None)),
            old(self).focus == Focus::Input && (old(self).selected_table is Some) ==> final(self).focus == Focus::Table,
            (old(self).focus == Focus::Input && (old(self).selected_table is None)
                && spec_visible_types(old(self).data_manager.snapshot@, old(self).input@).len()
                > 0) ==> (final(self).focus == Focus::TableSelect && final(self).table_select_index == 0),
            (old(self).focus == Focus::Input && (old(self).selected_table is None)
                && spec_visible_types(old(self).data_manager.snapshot@, old(self).input@).len()
                == 0) ==> *final(self) == *old(self),
    {
        match self.focus {
            Focus::Input => {
                match &self.selected_table {
                    None => {
                        let types = self.visible_types();
                        if types.len() > 0 {
                            self.focus = Focus::TableSelect;
                            self.table_select_index = 0;
                        }
                    },
                    Some(_) => {
                        self.focus = Focus::Table;
                    },
                }
            },
            Focus::TableSelect => {
                self.focus = Focus::Input;
                self.selected_table = None;
                self.selected_row = None;
                self.current_page = 0;
            },
            Focus::Table => {
                self.focus = Focus::Pages;
                self.page_focus = true;
            },
            Focus::Pages => {
                self.focus = Focus::Input;
                self.page_focus = false;
            },
        }
    }

    /// *Switch-Focus-Backward* (from row browsing): steps to the previous
    /// type in the offered order, resetting row and sort state, or falls
    /// back to the filter when already at the first type (or when the
    /// selected type is no longer offered).
    pub fn switch_focus_backward(&mut self)
        requires
            old(self).wf(),
        ensures
            final(self).wf(),
            final(self).data_manager.snapshot@ == old(self).data_manager.snapshot@,
            final(self).input == old(self).input,
            final(self).should_quit == old(self).should_quit,
            final(self).rows_per_page == old(self).rows_per_page,
            old(self).focus != Focus::Table ==> *final(self) == *old(self),
            old(self).focus == Focus::Table && (old(self).selected_table is None) ==> (final(self).focus == Focus::Input && final(self).same_but_focus(*old(self))),
            old(self).focus == Focus::Table ==> (old(self).selected_table matches Some(t) ==> {
                let types = spec_visible_types(old(self).data_manager.snapshot@, old(self).input@);
                let p = first_index_of(types, t@);
                &&& ((p == 0 || p >= types.len()) ==> (final(self).focus == Focus::Input && final(self).same_but_focus(*old(self))))
                &&& ((0 < p < types.len()) ==> (final(self).focus == Focus::Table && (final(self).selected_table matches Some(n) && n@ == types[p - 1]) && (final(self).sort_column is None) && final(self).sort_ascending && final(self).current_page == 0 && final(self).selected_row == (if final(self).spec_flen() == 0 {
                    None::<usize>
                } else {
                    Some(0usize)
                })))
            }),
    {
        match self.focus {
            Focus::Table => {},
            _ => {
                return ;
            },
        }
        let current = match &self.selected_table {
            Some(t) => t.clone(),
            None => {
                self.focus = Focus::Input;
                return ;
            },
        };
        let ghost cur = current@;
        let types = self.visible_types();
        let ghost tv = str_views(types@);
        let mut pos: usize = 0;
        let mut found = false;
        let mut i: usize = 0;
        while i < types.len()
            invariant
                i <= types@.len(),
                tv == str_views(types@),
                cur == current@,
                !found ==> forall|k: int| 0 <= k < i ==> tv[k] != cur,
                found ==> pos < i && tv[pos as int] == cur && (forall|k: int|
                    0 <= k < pos ==> tv[k] != cur),
            decreases types@.len() - i,
        {
            if !found {
                if str_eq(types[i].as_str(), current.as_str()) {
                    pos = i;
                    found = true;
                }
            }
            i = i + 1;
        }
        proof {
            lemma_first_index_of(tv, cur);
            let p = first_index_of(tv, cur);
            if found {
                assert(p == pos) by {
                    if p < pos {
                        assert(tv[p] != cur);
                        assert(tv[p] == cur);
                    }
                    if pos < p {
                        assert(tv[pos as int] != cur);
                    }
                }
            } else {
                assert(p == tv.len()) by {
                    if p < tv.len() {
                        assert(tv[p] == cur);
                        assert(tv[p] != cur);
                    }
                }
            }
        }
        if found && pos > 0 {
            let name = types[pos - 1].clone();
            proof {
                assert(name@ == tv[pos - 1]);
            }
            self.select_type(name);
        } else {
            self.focus = Focus::Input;
        }
    }

    /// *Confirm* (from type selection): commits the highlighted type.
    pub fn confirm(&mut self)
        requires
            old(self).wf(),
        ensures
            final(self).wf(),
            final(self).data_manager.snapshot@ == old(self).data_manager.snapshot@,
            final(self).input == old(self).input,
            final(self).should_quit == old(self).should_quit,
            final(self).rows_per_page == old(self).rows_per_page,
            old(self).focus != Focus::TableSelect ==> *final(self) == *old(self),
            (old(self).focus == Focus::TableSelect && old(self).table_select_index
                < spec_visible_types(old(self).data_manager.snapshot@, old(self).input@).len())
                ==> (final(self).focus == Focus::Table && (final(self).selected_table
                matches Some(n) && n@ == spec_visible_types(
                old(self).data_manager.snapshot@,
                old(self).input@,
            )[old(self).table_select_index as int]) && (final(self).sort_column is None) && final(self).sort_ascending && final(self).current_page == 0 && final(self).selected_row == (
            if final(self).spec_flen() == 0 {
                None::<usize>
            } else {
                Some(0usize)
            })),
    {
        match self.focus {
            Focus::TableSelect => {},
            _ => {
                return ;
            },
        }
        let types = self.visible_types();
        if self.table_select_index < types.len() {
            let name = types[self.table_select_index].clone();
            self.select_type(name);
        }
    }

    /// *Move-Up* from type selection moves the highlight; from row
    /// browsing it moves the selection one row up, the page following.
    pub fn move_up(&mut self)
        requires
            old(self).wf(),
        ensures
            final(self).wf(),
            final(self).data_manager.snapshot@ == old(self).data_manager.snapshot@,
            final(self).input == old(self).input,
            final(self).should_quit == old(self).should_quit,
            final(self).rows_per_page == old(self).rows_per_page,
            old(self).focus == Focus::TableSelect ==> final(self).table_select_index == (if old(self).table_select_index > 0 {
                (old(self).table_select_index - 1) as usize
            } else {
                0usize
            }),
            old(self).focus == Focus::Table && (old(self).selected_table is Some) ==> (old(self).selected_row matches Some(r) ==> (r > 0 && old(self).spec_flen() > 0 ==> final(self).selected_row == Some((r - 1) as usize))),
            old(self).focus == Focus::Table && (old(self).selected_table is Some) ==> (old(self).selected_row matches Some(r) ==> (r == 0 ==> *final(self) == *old(self))),
    {
        match self.focus {
            Focus::TableSelect => {
                if self.table_select_index > 0 {
                    self.table_select_index = self.table_select_index - 1;
                }
            },
            Focus::Table => {
                match &self.selected_table {
                    Some(_) => {
                        let flen = self.current_flen();
                        if flen > 0 {
                            match self.selected_row {
                                Some(r) => {
                                    if r > 0 {
                                        let nr = r - 1;
                                        self.selected_row = Some(nr);
                                        self.current_page = nr / self.rows_per_page;
                                        proof {
                                            lemma_row_page(
                                                flen as nat,
                                                self.rows_per_page as nat,
                                                nr as nat,
                                            );
                                        }
                                    }
                                },
                                None => {
                                    proof {
                                        lemma_page_start(
                                            flen as nat,
                                            self.rows_per_page as nat,
                                            self.current_page as nat,
                                        );
                                    }
                                    let start = self.current_page * self.rows_per_page;
                                    self.selected_row = Some(start);
                                },
                            }
                        }
                    },
                    None => {
                        let types = self.visible_types();
                        if types.len() > 0 {
                            let name = types[0].clone();
                            self.select_type(name);
                        }
                    },
                }
            },
            _ => {},
        }
    }

    /// *Move-Down*: the counterpart of *Move-Up*.
    pub fn move_down(&mut self)
        requires
            old(self).wf(),
        ensures
            final(self).wf(),
            final(self).data_manager.snapshot@ == old(self).data_manager.snapshot@,
            final(self).input == old(self).input,
            final(self).should_quit == old(self).should_quit,
            final(self).rows_per_page == old(self).rows_per_page,
            old(self).focus == Focus::Table && (old(self).selected_table is Some) ==> (old(self).selected_row matches Some(r) ==> (r + 1 < old(self).spec_flen() ==> final(self).selected_row == Some((r + 1) as usize))),
            old(self).focus == Focus::Table && (old(self).selected_table is Some) ==> (old(self).selected_row matches Some(r) ==> (r + 1 >= old(self).spec_flen() ==> *final(self) == *old(self))),
            (old(self).focus == Focus::TableSelect && old(self).table_select_index + 1
                < spec_visible_types(old(self).data_manager.snapshot@, old(self).input@).len())
                ==> final(self).table_select_index == old(self).table_select_index + 1,
            (old(self).focus == Focus::TableSelect && old(self).table_select_index + 1
                >= spec_visible_types(old(self).data_manager.snapshot@, old(self).input@).len())
                ==> *final(self) == *old(self),
    {
        match self.focus {
            Focus::TableSelect => {
                let types = self.visible_types();
                if types.len() > 0 && self.table_select_index < types.len() - 1 {
                    self.table_select_index = self.table_select_index + 1;
                }
            },
            Focus::Table => {
                match &self.selected_table {
                    Some(_) => {
                        let flen = self.current_flen();
                        if flen > 0 {
                            match self.selected_row {
                                Some(r) => {
                                    if r + 1 < flen {
                                        let nr = r + 1;
                                        self.selected_row = Some(nr);
                                        self.current_page = nr / self.rows_per_page;
                                        proof {
                                            lemma_row_page(
                                                flen as nat,
                                                self.rows_per_page as nat,
                                                nr as nat,
                                            );
                                        }
                                    }
                                },
                                None => {
                                    proof {
                                        lemma_page_start(
                                            flen as nat,
                                            self.rows_per_page as nat,
                                            self.current_page as nat,
                                        );
                                    }
                                    let start = self.current_page * self.rows_per_page;
                                    self.selected_row = Some(start);
                                },
                            }
                        }
                    },
                    None => {
                        let types = self.visible_types();
                        if types.len() > 0 {
                            let name = types[0].clone();
                            self.select_type(name);
                        }
                    },
                }
            },
            _ => {},
        }
    }
}


/// The modal text of the raw-bytes view of a record.
pub open spec fn inspect_text(key: Seq<char>, raw: Seq<u8>) -> Seq<char> {
    "raw data for "@ + key + ":\n"@ + hex_dump(raw)
}

/// The modal text after a successful deletion.
pub open spec fn delete_ok_text(key: Seq<char>) -> Seq<char> {
    "Successfully deleted key: "@ + key
}

/// The modal text after a failed deletion.
pub open spec fn delete_err_text(key: Seq<char>, err: Seq<char>) -> Seq<char> {
    "Error deleting key "@ + key + ": "@ + err
}


/// The essential guarantee of one dispatched event, as a relation
/// between the state before (`pre`) and after (`post`) a step taken with
/// the modal closed.
pub open spec fn spec_step(pre: App, post: App, event: AppEvent, now_ms: u64, eff: Effect) -> bool {
    match event {
        AppEvent::ForceQuit => post.should_quit,
        AppEvent::Cancel => pre.focus != Focus::TableSelect ==> (post.focus == Focus::TableSelect
            && (post.selected_table is None) && (post.selected_row is None) && post.current_page
            == 0),
        AppEvent::SwitchForward => {
            &&& (pre.focus == Focus::Table ==> post.focus == Focus::Pages && post.page_focus)
            &&& (pre.focus == Focus::Pages ==> post.focus == Focus::Input && !post.page_focus)
            &&& (pre.focus == Focus::TableSelect ==> (post.focus == Focus::Input && (
                post.selected_table is None)))
        },
        AppEvent::SwitchBackward => {
            &&& (pre.focus != Focus::Table ==> post == pre)
            &&& (pre.focus == Focus::Table && (pre.selected_table is None) ==> (post.focus
                == Focus::Input && post.same_but_focus(pre)))
            &&& (pre.focus == Focus::Table ==> (pre.selected_table matches Some(t) ==> {
                let types = spec_visible_types(pre.data_manager.snapshot@, pre.input@);
                let p = first_index_of(types, t@);
                &&& ((p == 0 || p >= types.len()) ==> (post.focus == Focus::Input
                    && post.same_but_focus(pre)))
                &&& ((0 < p < types.len()) ==> (post.focus == Focus::Table && (post.selected_table
                    matches Some(n) && n@ == types[p - 1]) && (post.sort_column is None)
                    && post.sort_ascending && post.current_page == 0 && post.selected_row == (
                if post.spec_flen() == 0 {
                    None::<usize>
                } else {
                    Some(0usize)
                })))
            }))
        },
        AppEvent::Confirm => (pre.focus == Focus::TableSelect && pre.table_select_index
            < spec_visible_types(pre.data_manager.snapshot@, pre.input@).len()) ==> (post.focus
            == Focus::Table && (post.selected_table matches Some(n) && n@ == spec_visible_types(
            pre.data_manager.snapshot@,
            pre.input@,
        )[pre.table_select_index as int]) && (post.sort_column is None) && post.sort_ascending
            && post.current_page == 0 && post.selected_row == (if post.spec_flen() == 0 {
            None::<usize>
        } else {
            Some(0usize)
        })),
        AppEvent::MoveUp => {
            &&& (pre.focus == Focus::TableSelect ==> post.table_select_index == (
            if pre.table_select_index > 0 {
                (pre.table_select_index - 1) as usize
            } else {
                0usize
            }))
            &&& (pre.focus == Focus::Table && (pre.selected_table is Some) ==> (pre.selected_row
                matches Some(r) ==> (r > 0 && pre.spec_flen() > 0 ==> post.selected_row == Some(
                (r - 1) as usize,
            ))))
            &&& (pre.focus == Focus::Table && (pre.selected_table is Some) ==> (pre.selected_row
                matches Some(r) ==> (r == 0 ==> post == pre)))
        },
        AppEvent::MoveDown => {
            &&& (pre.focus == Focus::Table && (pre.selected_table is Some) ==> (pre.selected_row
                matches Some(r) ==> (r + 1 < pre.spec_flen() ==> post.selected_row == Some(
                (r + 1) as usize,
            ))))
            &&& (pre.focus == Focus::Table && (pre.selected_table is Some) ==> (pre.selected_row
                matches Some(r) ==> (r + 1 >= pre.spec_flen() ==> post == pre)))
            &&& (pre.focus == Focus::TableSelect && pre.table_select_index + 1
                < spec_visible_types(pre.data_manager.snapshot@, pre.input@).len()
                ==> post.table_select_index == pre.table_select_index + 1)
            &&& (pre.focus == Focus::TableSelect && pre.table_select_index + 1
                >= spec_visible_types(pre.data_manager.snapshot@, pre.input@).len() ==> post
                == pre)
        },
        AppEvent::PageLeft => (pre.focus == Focus::Table || pre.focus == Focus::Pages)
            && pre.current_page > 0 ==> post.current_page == pre.current_page - 1
            && post.selected_row == Some(((pre.current_page - 1) * pre.rows_per_page) as usize),
        AppEvent::PageRight => (pre.focus == Focus::Table || pre.focus == Focus::Pages)
            && pre.current_page + 1 < pre.spec_pages() ==> post.current_page == pre.current_page
            + 1 && post.selected_row == Some(
            ((pre.current_page + 1) * pre.rows_per_page) as usize,
        ),
        AppEvent::Inspect => pre.focus == Focus::Table ==> (pre.selected_row matches Some(r) ==> (
        r < pre.spec_flen() ==> (post.show_raw_data matches Some(m) && m@ == inspect_text(
            pre.spec_filtered()[r as int].key,
            pre.spec_filtered()[r as int].raw_data,
        )))),
        AppEvent::DeleteRequest => {
            &&& post == pre
            &&& (pre.focus == Focus::Table && (pre.selected_table is Some) ==> (
            pre.selected_row matches Some(r) ==> (r < pre.spec_flen() ==> (
            eff matches Effect::DeleteKey(k) && k@ == pre.spec_filtered()[r as int].key))))
        },
        AppEvent::InputChar(c) => pre.focus == Focus::Input ==> (post.input@ == pre.input@.push(
            c,
        ) && post.selected_table == pre.selected_table && post.sort_column == pre.sort_column
            && post.sort_ascending == pre.sort_ascending && post.focus == pre.focus
            && post.selected_row == spec_row_clamp(pre.selected_row, post.spec_flen())),
        AppEvent::Backspace => pre.focus == Focus::Input && pre.input@.len() > 0 ==> (post.input@
            == pre.input@.subrange(0, pre.input@.len() - 1) && post.selected_table
            == pre.selected_table && post.sort_column == pre.sort_column && post.sort_ascending
            == pre.sort_ascending && post.focus == pre.focus && post.selected_row
            == spec_row_clamp(pre.selected_row, post.spec_flen())),
        AppEvent::SortToggle(col) => pre.selected_table is Some ==> (post.sort_column == Some(col)
            && post.current_page == 0 && (pre.sort_column == Some(col) ==> post.sort_ascending
            == !pre.sort_ascending) && (pre.sort_column != Some(col) ==> post.sort_ascending)
            && post.selected_row == (if post.spec_flen() == 0 {
            None::<usize>
        } else {
            Some(0usize)
        })),
        AppEvent::Activate(row) => pre.selected_table matches Some(t) ==> (row < pre.spec_flen()
            && row as int / (pre.rows_per_page as int) == pre.current_page as int ==> {
            let dbl = match pre.last_click {
                Some((t0, tbl, r0)) => tbl@ == t@ && r0 == row && t0 <= now_ms && now_ms - t0
                    < 500,
                None => false,
            };
            &&& dbl ==> (post.show_raw_data matches Some(m) && m@ == inspect_text(
                pre.spec_filtered()[row as int].key,
                pre.spec_filtered()[row as int].raw_data,
            ) && (post.last_click is None))
            &&& !dbl ==> (post.last_click matches Some((t1, tbl1, r1)) && t1 == now_ms && tbl1@
                == t@ && r1 == row && post.selected_row == Some(row) && post.show_raw_data
                == pre.show_raw_data)
        }),
        AppEvent::PageSelect(idx) => (pre.selected_table is Some) && (idx as nat)
            < pre.spec_pages() ==> (post.current_page == idx && post.focus == Focus::Pages
            && post.page_focus && post.selected_row == (if pre.spec_flen() == 0 {
            None::<usize>
        } else {
            Some((idx * pre.rows_per_page) as usize)
        })),
        AppEvent::FocusInput => post.focus == Focus::Input,
        AppEvent::SelectTypeAt(i) => i < spec_visible_types(
            pre.data_manager.snapshot@,
            pre.input@,
        ).len() ==> (post.focus == Focus::Table && (post.selected_table matches Some(n) && n@
            == spec_visible_types(pre.data_manager.snapshot@, pre.input@)[i as int])
            && post.table_select_index == i && (post.sort_column is None) && post.sort_ascending
            && post.current_page == 0 && post.selected_row == (if post.spec_flen() == 0 {
            None::<usize>
        } else {
            Some(0usize)
        })),
    }
}

impl App {
    /// Moves to a valid page, snapping the selection to its first row
    /// (or clearing it when the view is empty).
    fn goto_page(&mut self, p: usize)
        requires
            old(self).wf(),
            (p as nat) < old(self).spec_pages(),
        ensures
            final(self).wf(),
            final(self).same_but_cursor(*old(self)),
            final(self).current_page == p,
            final(self).selected_row == (if old(self).spec_flen() == 0 {
                None::<usize>
            } else {
                Some((p * old(self).rows_per_page) as usize)
            }),
    {
        self.current_page = p;
        let flen = self.current_flen();
        if flen > 0 {
            proof {
                lemma_page_start(flen as nat, self.rows_per_page as nat, p as nat);
            }
            let start = p * self.rows_per_page;
            self.selected_row = Some(start);
        } else {
            self.selected_row = None;
            proof {
                if old(self).selected_table is None {
                    assert(p == 0);
                }
            }
        }
    }

    /// *Page-Left*: one page back, within bounds, selection snapped to
    /// the new page's first row.
    pub fn page_left(&mut self)
        requires
            old(self).wf(),
        ensures
            final(self).wf(),
            final(self).same_but_cursor(*old(self)),
            old(self).current_page > 0 ==> final(self).current_page == old(self).current_page - 1
                && final(self).selected_row == Some(
                ((old(self).current_page - 1) * old(self).rows_per_page) as usize,
            ),
            old(self).current_page == 0 ==> *final(self) == *old(self),
    {
        if self.current_page > 0 {
            let np = self.current_page - 1;
            self.goto_page(np);
        }
    }

    /// *Page-Right*: one page forward, within bounds, selection snapped
    /// to the new page's first row.
    pub fn page_right(&mut self)
        requires
            old(self).wf(),
        ensures
            final(self).wf(),
            final(self).same_but_cursor(*old(self)),
            old(self).current_page + 1 < old(self).spec_pages() ==> final(self).current_page == old(self).current_page + 1
                && final(self).selected_row == Some(
                ((old(self).current_page + 1) * old(self).rows_per_page) as usize,
            ),
            old(self).current_page + 1 >= old(self).spec_pages() ==> *final(self) == *old(self),
    {
        let total = self.current_pages();
        if self.current_page + 1 < total {
            let np = self.current_page + 1;
            self.goto_page(np);
        }
    }

    /// Pointer activation of a page button: jumps to that page, focusing
    /// the pager.
    pub fn page_select(&mut self, idx: usize)
        requires
            old(self).wf(),
        ensures
            final(self).wf(),
            final(self).data_manager.snapshot@ == old(self).data_manager.snapshot@,
            final(self).input == old(self).input,
            final(self).should_quit == old(self).should_quit,
            final(self).rows_per_page == old(self).rows_per_page,
            (old(self).selected_table is Some) && (idx as nat) < old(self).spec_pages() ==> final(self).current_page == idx && final(self).focus == Focus::Pages && final(self).page_focus
                && final(self).selected_row == (if old(self).spec_flen() == 0 {
                None::<usize>
            } else {
                Some((idx * old(self).rows_per_page) as usize)
            }),
    {
        match &self.selected_table {
            None => {
                return ;
            },
            Some(_) => {},
        }
        let total = self.current_pages();
        if idx < total {
            self.goto_page(idx);
            self.focus = Focus::Pages;
            self.page_focus = true;
        }
    }

    /// *Sort-Toggle* on a header cell: flips the direction when the
    /// column is already the sort column, else sorts by it ascending;
    /// selection and page reset to the top.
    pub fn sort_toggle(&mut self, col: usize)
        requires
            old(self).wf(),
        ensures
            final(self).wf(),
            final(self).data_manager.snapshot@ == old(self).data_manager.snapshot@,
            final(self).input == old(self).input,
            final(self).should_quit == old(self).should_quit,
            final(self).rows_per_page == old(self).rows_per_page,
            old(self).selected_table is None ==> *final(self) == *old(self),
            old(self).selected_table is Some ==> final(self).sort_column == Some(col) && final(self).current_page == 0 && final(self).selected_table == old(self).selected_table
                && final(self).selected_row == (if final(self).spec_flen() == 0 {
                None::<usize>
            } else {
                Some(0usize)
            }),
            old(self).selected_table is Some && old(self).sort_column == Some(col) ==> final(self).sort_ascending == !old(self).sort_ascending,
            (old(self).selected_table is Some) && old(self).sort_column != Some(col) ==> final(self).sort_ascending,
    {
        match &self.selected_table {
            None => {
                return ;
            },
            Some(_) => {},
        }
        let same = match self.sort_column {
            Some(c) => c == col,
            None => false,
        };
        if same {
            self.sort_ascending = !self.sort_ascending;
        } else {
            self.sort_column = Some(col);
            self.sort_ascending = true;
        }
        self.current_page = 0;
        self.selected_row = None;
        let flen = self.current_flen();
        if flen > 0 {
            self.selected_row = Some(0);
        }
    }

    /// *Inspect*: opens the raw-bytes modal for the selected record.
    pub fn inspect(&mut self)
        requires
            old(self).wf(),
        ensures
            final(self).wf(),
            final(self).same_but_modal(*old(self)),
            old(self).focus == Focus::Table ==> (old(self).selected_row matches Some(r) ==> (r
                < old(self).spec_flen() ==> (final(self).show_raw_data matches Some(m) && m@
                == inspect_text(
                old(self).spec_filtered()[r as int].key,
                old(self).spec_filtered()[r as int].raw_data,
            )))),
    {
        match self.focus {
            Focus::Table => {},
            _ => {
                return ;
            },
        }
        let table = match &self.selected_table {
            Some(t) => t.clone(),
            None => {
                return ;
            },
        };
        let row = match self.selected_row {
            Some(r) => r,
            None => {
                return ;
            },
        };
        let filtered = self.get_filtered_records(&table);
        proof {
            assert(rec_views(filtered@).len() == filtered@.len());
        }
        if row < filtered.len() {
            proof {
                assert(rec_views(filtered@)[row as int] == filtered@[row as int]@);
            }
            let hex = hex_string(&filtered[row].raw_data);
            let mut msg = String::from_str("raw data for ");
            msg.append(filtered[row].key.as_str());
            msg.append(":\n");
            msg.append(hex.as_str());
            self.show_raw_data = Some(msg);
        }
    }

    /// Everything but the modal text is untouched.
    pub open spec fn same_but_modal(self, o: App) -> bool {
        &&& self.data_manager.snapshot@ == o.data_manager.snapshot@
        &&& self.input == o.input
        &&& self.focus == o.focus
        &&& self.selected_table == o.selected_table
        &&& self.selected_row == o.selected_row
        &&& self.current_page == o.current_page
        &&& self.should_quit == o.should_quit
        &&& self.table_select_index == o.table_select_index
        &&& self.sort_column == o.sort_column
        &&& self.sort_ascending == o.sort_ascending
        &&& self.page_focus == o.page_focus
        &&& self.rows_per_page == o.rows_per_page
    }

    /// A pointer activation on a visible row: a second activation on the
    /// same type and row within half a second opens the raw-bytes modal;
    /// otherwise the activation selects the row and is remembered.
    pub fn activate(&mut self, row: usize, now_ms: u64)
        requires
            old(self).wf(),
        ensures
            final(self).wf(),
            final(self).data_manager.snapshot@ == old(self).data_manager.snapshot@,
            final(self).input == old(self).input,
            final(self).should_quit == old(self).should_quit,
            final(self).rows_per_page == old(self).rows_per_page,
            old(self).selected_table matches Some(t) ==> (row < old(self).spec_flen() && row as int
                / (old(self).rows_per_page as int) == old(self).current_page as int ==> {
                let dbl = match old(self).last_click {
                    Some((t0, tbl, r0)) => tbl@ == t@ && r0 == row && t0 <= now_ms && now_ms - t0
                        < 500,
                    None => false,
                };
                &&& dbl ==> (final(self).show_raw_data matches Some(m) && m@ == inspect_text(
                    old(self).spec_filtered()[row as int].key,
                    old(self).spec_filtered()[row as int].raw_data,
                ) && (final(self).last_click is None))
                &&& !dbl ==> (final(self).last_click matches Some((t1, tbl1, r1)) && t1 == now_ms
                    && tbl1@ == t@ && r1 == row && final(self).selected_row == Some(row) && final(self).show_raw_data == old(self).show_raw_data)
            }),
    {
        let table = match &self.selected_table {
            Some(t) => t.clone(),
            None => {
                return ;
            },
        };
        let filtered = self.get_filtered_records(&table);
        proof {
            assert(rec_views(filtered@).len() == filtered@.len());
        }
        if row >= filtered.len() {
            return ;
        }
        if !(row / self.rows_per_page == self.current_page) {
            return ;
        }
        let dbl = match &self.last_click {
            Some((t0, tbl, r0)) => str_eq(tbl.as_str(), table.as_str()) && *r0 == row && *t0
                <= now_ms && now_ms - *t0 < 500,
            None => false,
        };
        proof {
            assert(rec_views(filtered@)[row as int] == filtered@[row as int]@);
        }
        if dbl {
            let hex = hex_string(&filtered[row].raw_data);
            let mut msg = String::from_str("raw data for ");
            msg.append(filtered[row].key.as_str());
            msg.append(":\n");
            msg.append(hex.as_str());
            self.show_raw_data = Some(msg);
            self.last_click = None;
        } else {
            self.last_click = Some((now_ms, table, row));
            self.selected_row = Some(row);
        }
    }

    /// The key whose record the *Delete* intent names: the selected row's
    /// key, when the selection is valid.
    pub fn request_delete(&self) -> (r: Option<String>)
        ensures
            match r {
                Some(k) => (self.selected_table is Some) && (self.selected_row
                    matches Some(row) && row < self.spec_flen() && k@ == self.spec_filtered()[
                    row as int
                ].key),
                None => true,
            },
            (self.selected_table is Some) && (match self.selected_row {
                Some(row) => row < self.spec_flen(),
                None => false,
            }) ==> r is Some,
    {
        let table = match &self.selected_table {
            Some(t) => t.clone(),
            None => {
                return None;
            },
        };
        let row = match self.selected_row {
            Some(r) => r,
            None => {
                return None;
            },
        };
        let filtered = self.get_filtered_records(&table);
        proof {
            assert(rec_views(filtered@).len() == filtered@.len());
        }
        if row < filtered.len() {
            proof {
                assert(rec_views(filtered@)[row as int] == filtered@[row as int]@);
            }
            Some(filtered[row].key.clone())
        } else {
            None
        }
    }

    /// Applies the outcome of the store delete the caller performed: on
    /// success the record leaves the held snapshot and the selection is
    /// re-clamped (cleared entirely when the type's group is now empty);
    /// on failure the snapshot is untouched. Either way the outcome shows
    /// as modal text.
    pub fn apply_delete_result(&mut self, key: &String, error: Option<&String>)
        requires
            old(self).wf(),
        ensures
            final(self).wf(),
            final(self).input == old(self).input,
            final(self).should_quit == old(self).should_quit,
            final(self).rows_per_page == old(self).rows_per_page,
            match error {
                Some(e) => final(self).data_manager.snapshot@ == old(self).data_manager.snapshot@
                    && (final(self).show_raw_data matches Some(m) && m@ == delete_err_text(
                    key@,
                    e@,
                )) && final(self).selected_table == old(self).selected_table && final(self).selected_row == old(self).selected_row && final(self).current_page == old(self).current_page,
                None => ((old(self).selected_table matches Some(t) ==> (final(self).data_manager.snapshot@ == crate::data::spec_delete(
                    old(self).data_manager.snapshot@,
                    t@,
                    key@,
                ) && (final(self).show_raw_data matches Some(m) && m@ == delete_ok_text(key@)) && (
                crate::data::records_of(final(self).data_manager.snapshot@, t@).len() == 0 ==> (
                final(self).selected_table is None) && (final(self).selected_row is None) && final(self).current_page == 0) && (crate::data::records_of(
                    final(self).data_manager.snapshot@,
                    t@,
                ).len() > 0 ==> final(self).selected_table == old(self).selected_table && final(self).selected_row == spec_row_clamp(
                    old(self).selected_row,
                    final(self).spec_flen(),
                )))) && ((old(self).selected_table is None) ==> *final(self) == *old(self))),
            },
    {
        match error {
            Some(e) => {
                let mut msg = String::from_str("Error deleting key ");
                msg.append(key.as_str());
                msg.append(": ");
                msg.append(e.as_str());
                proof {
                    assert(msg@ =~= delete_err_text(key@, e@));
                }
                self.show_raw_data = Some(msg);
            },
            None => {
                let table = match &self.selected_table {
                    Some(t) => t.clone(),
                    None => {
                        return ;
                    },
                };
                self.data_manager.delete_record(&table, key);
                let group_empty = match find_group(&self.data_manager.snapshot.groups, &table) {
                    Some(i) => {
                        proof {
                            assert(crate::data::snap_views(
                                self.data_manager.snapshot.groups@,
                            )[i as int].records == rec_views(
                                self.data_manager.snapshot.groups@[i as int].records@,
                            ));
                        }
                        self.data_manager.snapshot.groups[i].records.len() == 0
                    },
                    None => {
                        proof {
                            crate::data::lemma_absent_type_empty(
                                self.data_manager.snapshot@,
                                table@,
                            );
                        }
                        true
                    },
                };
                proof {
                    assert(group_empty == (crate::data::records_of(
                        self.data_manager.snapshot@,
                        table@,
                    ).len() == 0));
                }
                if group_empty {
                    self.selected_table = None;
                    self.selected_row = None;
                    self.current_page = 0;
                } else {
                    self.reclamp();
                }
                let mut msg = String::from_str("Successfully deleted key: ");
                msg.append(key.as_str());
                proof {
                    assert(msg@ =~= delete_ok_text(key@));
                }
                self.show_raw_data = Some(msg);
            },
        }
    }

    /// A typed filter character (in filter entry): appends it and
    /// re-clamps the selection to the narrowed view.
    pub fn input_char(&mut self, c: char)
        requires
            old(self).wf(),
        ensures
            final(self).wf(),
            final(self).data_manager.snapshot@ == old(self).data_manager.snapshot@,
            final(self).should_quit == old(self).should_quit,
            final(self).rows_per_page == old(self).rows_per_page,
            old(self).focus == Focus::Input ==> final(self).input@ == old(self).input@.push(c),
            old(self).focus == Focus::Input ==> (final(self).focus == old(self).focus && final(self).selected_table == old(self).selected_table && final(self).sort_column == old(self).sort_column && final(self).sort_ascending == old(self).sort_ascending && final(self).show_raw_data == old(self).show_raw_data && final(self).last_click == old(self).last_click && final(self).table_select_index == old(self).table_select_index && final(self).page_focus == old(self).page_focus && final(self).selected_row
                == spec_row_clamp(old(self).selected_row, final(self).spec_flen())),
            old(self).focus != Focus::Input ==> *final(self) == *old(self),
    {
        match self.focus {
            Focus::Input => {},
            _ => {
                return ;
            },
        }
        push_char(&mut self.input, c);
        self.reclamp();
    }

    /// Backspace in filter entry: drops the last character and re-clamps
    /// the selection to the widened view.
    pub fn backspace(&mut self)
        requires
            old(self).wf(),
        ensures
            final(self).wf(),
            final(self).data_manager.snapshot@ == old(self).data_manager.snapshot@,
            final(self).should_quit == old(self).should_quit,
            final(self).rows_per_page == old(self).rows_per_page,
            old(self).focus == Focus::Input && old(self).input@.len() > 0 ==> final(self).input@
                == old(self).input@.subrange(0, old(self).input@.len() - 1),
            old(self).focus == Focus::Input && old(self).input@.len() > 0 ==> (final(self).focus == old(self).focus && final(self).selected_table == old(self).selected_table && final(self).sort_column == old(self).sort_column && final(self).sort_ascending == old(self).sort_ascending && final(self).show_raw_data == old(self).show_raw_data && final(self).last_click == old(self).last_click && final(self).table_select_index == old(self).table_select_index && final(self).page_focus == old(self).page_focus
                && final(self).selected_row == spec_row_clamp(
                old(self).selected_row,
                final(self).spec_flen(),
            )),
            old(self).focus == Focus::Input && old(self).input@.len() == 0 ==> *final(self) == *old(self),
            old(self).focus != Focus::Input ==> *final(self) == *old(self),
    {
        match self.focus {
            Focus::Input => {},
            _ => {
                return ;
            },
        }
        let n = self.input.as_str().unicode_len();
        if n == 0 {
            return ;
        }
        let shorter = self.input.as_str().substring_char(0, n - 1).to_owned();
        self.input = shorter;
        self.reclamp();
    }

    /// Adopts the page height the renderer has room for (at least one
    /// row) and re-clamps the selection to the new page grid.
    pub fn set_rows_per_page(&mut self, height: u16)
        requires
            old(self).wf(),
        ensures
            final(self).wf(),
            final(self).data_manager.snapshot@ == old(self).data_manager.snapshot@,
            final(self).input == old(self).input,
            final(self).should_quit == old(self).should_quit,
            final(self).rows_per_page == (if height == 0 {
                1
            } else {
                height as usize
            }),
            final(self).focus == old(self).focus && final(self).selected_table == old(self).selected_table && final(self).sort_column == old(self).sort_column && final(self).sort_ascending == old(self).sort_ascending && final(self).show_raw_data == old(self).show_raw_data && final(self).last_click == old(self).last_click && final(self).table_select_index == old(self).table_select_index && final(self).page_focus == old(self).page_focus,
            final(self).selected_row == spec_row_clamp(
                old(self).selected_row,
                old(self).spec_flen(),
            ),
    {
        self.rows_per_page = if height == 0 {
            1
        } else {
            height as usize
        };
        self.reclamp();
    }

    /// Adopts a drained snapshot delivery, if any, and re-clamps the
    /// selection against the fresh snapshot.
    pub fn sync_snapshot(&mut self, delivery: Option<Snapshot>) -> (updated: bool)
        requires
            old(self).wf(),
        ensures
            final(self).wf(),
            final(self).input == old(self).input,
            final(self).should_quit == old(self).should_quit,
            final(self).rows_per_page == old(self).rows_per_page,
            final(self).focus == old(self).focus && final(self).selected_table == old(self).selected_table && final(self).sort_column == old(self).sort_column && final(self).sort_ascending == old(self).sort_ascending && final(self).show_raw_data == old(self).show_raw_data && final(self).last_click == old(self).last_click && final(self).table_select_index == old(self).table_select_index && final(self).page_focus == old(self).page_focus,
            match delivery {
                Some(s) => updated && final(self).data_manager.snapshot@ == s@ && final(self).selected_row == spec_row_clamp(old(self).selected_row, final(self).spec_flen()),
                None => !updated && *final(self) == *old(self),
            },
    {
        let updated = self.data_manager.try_recv(delivery);
        if updated {
            self.reclamp();
        }
        updated
    }

    /// Routes one logical event through the machine. While the raw-bytes
    /// modal is open every event except *Force-Quit* (honored) and
    /// *Cancel* (closes the modal) is swallowed.
    pub fn handle_event(&mut self, event: &AppEvent, now_ms: u64) -> (eff: Effect)
        requires
            old(self).wf(),
        ensures
            final(self).wf(),
            old(self).show_raw_data is Some ==> match event {
                AppEvent::ForceQuit => final(self).should_quit && final(self).show_raw_data == old(self).show_raw_data && final(self).same_but_quit(*old(self)),
                AppEvent::Cancel => (final(self).show_raw_data is None) && final(self).same_but_modal(*old(self)),
                _ => *final(self) == *old(self),
            },
            eff matches Effect::DeleteKey(k) ==> ((old(self).show_raw_data is None) && old(self).focus == Focus::Table && (old(self).selected_table is Some) && (old(self).selected_row matches Some(r) && r < old(self).spec_flen() && k@ == old(self).spec_filtered()[r as int].key)),
            old(self).show_raw_data is None ==> spec_step(
                *old(self),
                *final(self),
                *event,
                now_ms,
                eff,
            ),
    {
        let modal_open = match &self.show_raw_data {
            Some(_) => true,
            None => false,
        };
        if modal_open {
            match event {
                AppEvent::ForceQuit => {
                    self.should_quit = true;
                },
                AppEvent::Cancel => {
                    self.show_raw_data = None;
                },
                _ => {},
            }
            return Effect::Nothing;
        }
        match event {
            AppEvent::ForceQuit => {
                self.should_quit = true;
                Effect::Nothing
            },
            AppEvent::Cancel => {
                self.cancel();
                Effect::Nothing
            },
            AppEvent::SwitchForward => {
                self.switch_focus_forward();
                Effect::Nothing
            },
            AppEvent::SwitchBackward => {
                self.switch_focus_backward();
                Effect::Nothing
            },
            AppEvent::Confirm => {
                self.confirm();
                Effect::Nothing
            },
            AppEvent::MoveUp => {
                self.move_up();
                Effect::Nothing
            },
            AppEvent::MoveDown => {
                self.move_down();
                Effect::Nothing
            },
            AppEvent::PageLeft => {
                match self.focus {
                    Focus::Table | Focus::Pages => {
                        self.page_left();
                    },
                    _ => {},
                }
                Effect::Nothing
            },
            AppEvent::PageRight => {
                match self.focus {
                    Focus::Table | Focus::Pages => {
                        self.page_right();
                    },
                    _ => {},
                }
                Effect::Nothing
            },
            AppEvent::Inspect => {
                self.inspect();
                Effect::Nothing
            },
            AppEvent::DeleteRequest => {
                match self.focus {
                    Focus::Table => {
                        match self.request_delete() {
                            Some(k) => Effect::DeleteKey(k),
                            None => Effect::Nothing,
                        }
                    },
                    _ => Effect::Nothing,
                }
            },
            AppEvent::InputChar(c) => {
                self.input_char(*c);
                Effect::Nothing
            },
            AppEvent::Backspace => {
                self.backspace();
                Effect::Nothing
            },
            AppEvent::SortToggle(col) => {
                self.sort_toggle(*col);
                Effect::Nothing
            },
            AppEvent::Activate(row) => {
                self.activate(*row, now_ms);
                Effect::Nothing
            },
            AppEvent::PageSelect(idx) => {
                self.page_select(*idx);
                Effect::Nothing
            },
            AppEvent::FocusInput => {
                self.focus = Focus::Input;
                Effect::Nothing
            },
            AppEvent::SelectTypeAt(i) => {
                self.select_type_at(*i);
                Effect::Nothing
            },
        }
    }

    /// Everything but the quit flag is untouched.
    pub open spec fn same_but_quit(self, o: App) -> bool {
        &&& self.data_manager.snapshot@ == o.data_manager.snapshot@
        &&& self.input == o.input
        &&& self.focus == o.focus
        &&& self.selected_table == o.selected_table
        &&& self.selected_row == o.selected_row
        &&& self.current_page == o.current_page
        &&& self.show_raw_data == o.show_raw_data
        &&& self.table_select_index == o.table_select_index
        &&& self.sort_column == o.sort_column
        &&& self.sort_ascending == o.sort_ascending
        &&& self.page_focus == o.page_focus
        &&& self.rows_per_page == o.rows_per_page
    }

    /// Pointer selection of a type row: highlights and commits that type.
    pub fn select_type_at(&mut self, i: usize)
        requires
            old(self).wf(),
        ensures
            final(self).wf(),
            final(self).data_manager.snapshot@ == old(self).data_manager.snapshot@,
            final(self).input == old(self).input,
            final(self).should_quit == old(self).should_quit,
            final(self).rows_per_page == old(self).rows_per_page,
            i < spec_visible_types(old(self).data_manager.snapshot@, old(self).input@).len()
                ==> final(self).focus == Focus::Table && (final(self).selected_table
                matches Some(n) && n@ == spec_visible_types(
                old(self).data_manager.snapshot@,
                old(self).input@,
            )[i as int]) && final(self).table_select_index == i && (final(self).sort_column
                is None) && final(self).sort_ascending && final(self).current_page == 0 && final(self).selected_row == (if final(self).spec_flen() == 0 {
                None::<usize>
            } else {
                Some(0usize)
            }),
            i >= spec_visible_types(old(self).data_manager.snapshot@, old(self).input@).len()
                ==> *final(self) == *old(self),
    {
        let types = self.visible_types();
        if i < types.len() {
            self.table_select_index = i;
            let name = types[i].clone();
            self.select_type(name);
        }
    }
}

} // verus!
