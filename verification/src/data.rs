//! Snapshots: immutable, point-in-time copies of all store records,
//! grouped by record type and ordered newest first, with derived display
//! headers. Also the single-slot handoff mailbox and the loader state
//! used by the background refresh protocol.

use vstd::prelude::*;
use vstd::string::*;
use crate::models::{
    Record, RecordV, PayloadV, rec_views, str_views, spec_record, spec_timestamp,
    deserialize_record, timestamp_of_key,
};
use crate::strings::{lex_le, lex_lt, str_le, str_eq, lemma_lex_le_total, lemma_lex_le_antisymmetric};
use crate::sorting::{sort_stable, insert_by, lemma_insert_by_at, lemma_insert_by_len};

verus! {

/// All records of one record type, newest first, with the display headers
/// derived for that type.
pub struct TypeGroup {
    pub record_type: String,
    pub records: Vec<Record>,
    pub headers: Vec<String>,
}

pub struct GroupV {
    pub record_type: Seq<char>,
    pub records: Seq<RecordV>,
    pub headers: Seq<Seq<char>>,
}

impl View for TypeGroup {
    type V = GroupV;

    open spec fn view(&self) -> GroupV {
        GroupV {
            record_type: self.record_type@,
            records: rec_views(self.records@),
            headers: str_views(self.headers@),
        }
    }
}

/// An immutable snapshot of the whole store: one group per record type,
/// groups sorted by type name.
pub struct Snapshot {
    pub groups: Vec<TypeGroup>,
}

impl View for Snapshot {
    type V = Seq<GroupV>;

    open spec fn view(&self) -> Seq<GroupV> {
        snap_views(self.groups@)
    }
}

/// The snapshot has a group of this type name.
pub open spec fn has_type(s: Seq<GroupV>, name: Seq<char>) -> bool {
    exists|i: int| 0 <= i < s.len() && (#[trigger] s[i]).record_type == name
}

/// The records of the group of this name, or empty when absent.
pub open spec fn records_of(s: Seq<GroupV>, name: Seq<char>) -> Seq<RecordV>
    decreases s.len(),
{
    if s.len() == 0 {
        Seq::empty()
    } else if s[0].record_type == name {
        s[0].records
    } else {
        records_of(s.drop_first(), name)
    }
}

/// The headers of the group of this name, or empty when absent.
pub open spec fn headers_of(s: Seq<GroupV>, name: Seq<char>) -> Seq<Seq<char>>
    decreases s.len(),
{
    if s.len() == 0 {
        Seq::empty()
    } else if s[0].record_type == name {
        s[0].headers
    } else {
        headers_of(s.drop_first(), name)
    }
}

/// A type absent from the snapshot has no records and no headers.
pub proof fn lemma_absent_type_empty(s: Seq<GroupV>, name: Seq<char>)
    requires
        !has_type(s, name),
    ensures
        records_of(s, name) == Seq::<RecordV>::empty(),
        headers_of(s, name) == Seq::<Seq<char>>::empty(),
    decreases s.len(),
{
    if s.len() != 0 {
        assert(s[0].record_type != name);
        assert forall|i: int|
            0 <= i < s.drop_first().len() implies (#[trigger] s.drop_first()[i]).record_type
            != name by {
            assert(s.drop_first()[i] == s[i + 1]);
        }
        lemma_absent_type_empty(s.drop_first(), name);
    }
}

/// Inserts a field name into a sorted duplicate-free name list, keeping
/// it sorted and duplicate-free.
pub open spec fn insert_name(h: Seq<Seq<char>>, x: Seq<char>) -> Seq<Seq<char>>
    decreases h.len(),
{
    if h.len() == 0 {
        seq![x]
    } else if h[0] == x {
        h
    } else if lex_lt(x, h[0]) {
        seq![x] + h
    } else {
        seq![h[0]] + insert_name(h.drop_first(), x)
    }
}

/// The field names of an object payload, in payload order; empty for
/// non-object payloads.
pub open spec fn names_of(p: PayloadV) -> Seq<Seq<char>> {
    match p {
        PayloadV::Object(fs) => fs.map_values(|f: crate::models::FieldV| f.name),
        PayloadV::Other => Seq::empty(),
    }
}

/// Folds a list of names into the sorted duplicate-free accumulator.
pub open spec fn add_names(h: Seq<Seq<char>>, names: Seq<Seq<char>>) -> Seq<Seq<char>>
    decreases names.len(),
{
    if names.len() == 0 {
        h
    } else {
        insert_name(add_names(h, names.drop_last()), names.last())
    }
}

/// The sorted duplicate-free union of all object field names over a
/// record list.
pub open spec fn collect_names(rs: Seq<RecordV>) -> Seq<Seq<char>>
    decreases rs.len(),
{
    if rs.len() == 0 {
        Seq::empty()
    } else {
        add_names(collect_names(rs.drop_last()), names_of(rs.last().data))
    }
}

/// The display headers for a record list: the synthetic `key` column,
/// then the sorted distinct object field names.
pub open spec fn spec_headers(rs: Seq<RecordV>) -> Seq<Seq<char>> {
    seq!["key"@] + collect_names(rs)
}

/// Characterizes `insert_name` by position: with everything before `j`
/// strictly below `x` and the element at `j` (if any) not below `x`, the
/// insertion either finds `x` at `j` or places it there.
pub proof fn lemma_insert_name_at(h: Seq<Seq<char>>, x: Seq<char>, j: int)
    requires
        0 <= j <= h.len(),
        forall|k: int| 0 <= k < j ==> lex_lt(#[trigger] h[k], x),
        j < h.len() ==> !lex_lt(h[j], x),
    ensures
        j < h.len() && h[j] == x ==> insert_name(h, x) == h,
        !(j < h.len() && h[j] == x) ==> insert_name(h, x) == h.subrange(0, j) + seq![x]
            + h.subrange(j, h.len() as int),
    decreases h.len(),
{
    if h.len() == 0 {
        assert(insert_name(h, x) =~= h.subrange(0, j) + seq![x] + h.subrange(j, h.len() as int));
    } else if j == 0 {
        if h[0] == x {
        } else {
            assert(!lex_lt(h[0], x));
            lemma_lex_le_total(x, h[0]);
            assert(lex_le(x, h[0]) || lex_le(h[0], x));
            if lex_le(h[0], x) && lex_le(x, h[0]) {
                lemma_lex_le_antisymmetric(x, h[0]);
                assert(false);
            }
            assert(lex_lt(x, h[0]));
            assert(insert_name(h, x) =~= h.subrange(0, 0) + seq![x] + h.subrange(
                0,
                h.len() as int,
            ));
        }
    } else {
        assert(lex_lt(h[0], x));
        assert(h[0] != x);
        assert(!lex_lt(x, h[0])) by {
            if lex_lt(x, h[0]) {
                lemma_lex_le_antisymmetric(x, h[0]);
            }
        }
        let rest = h.drop_first();
        assert forall|k: int| 0 <= k < j - 1 implies lex_lt(#[trigger] rest[k], x) by {
            assert(rest[k] == h[k + 1]);
        }
        if j - 1 < rest.len() {
            assert(rest[j - 1] == h[j]);
        }
        lemma_insert_name_at(rest, x, j - 1);
        if j < h.len() && h[j] == x {
            assert(insert_name(rest, x) == rest);
            assert(insert_name(h, x) =~= h);
        } else {
            assert(insert_name(h, x) =~= h.subrange(0, j) + seq![x] + h.subrange(
                j,
                h.len() as int,
            )) by {
                assert(rest.subrange(0, j - 1) =~= h.subrange(1, j));
                assert(rest.subrange(j - 1, rest.len() as int) =~= h.subrange(j, h.len() as int));
            }
        }
    }
}

/// Inserts one name into a sorted duplicate-free exec name list.
fn insert_name_exec(names: &mut Vec<String>, x: &String)
    ensures
        str_views(final(names)@) == insert_name(str_views(old(names)@), x@),
{
    let ghost hv = str_views(names@);
    let mut j: usize = 0;
    while j < names.len()
        invariant
            j <= names@.len(),
            names@ == old(names)@,
            hv == str_views(names@),
            forall|k: int| 0 <= k < j ==> lex_lt(#[trigger] hv[k], x@),
        decreases names@.len() - j,
    {
        if str_eq(names[j].as_str(), x.as_str()) {
            proof {
                lemma_insert_name_at(hv, x@, j as int);
            }
            return ;
        }
        if !str_le(names[j].as_str(), x.as_str()) {
            proof {
                assert(!lex_le(hv[j as int], x@));
                assert(!lex_lt(hv[j as int], x@));
                lemma_insert_name_at(hv, x@, j as int);
            }
            names.insert(j, x.clone());
            proof {
                assert(str_views(names@) =~= hv.subrange(0, j as int) + seq![x@] + hv.subrange(
                    j as int,
                    hv.len() as int,
                ));
            }
            return ;
        }
        proof {
            assert(lex_le(hv[j as int], x@) && hv[j as int] != x@);
        }
        j = j + 1;
    }
    proof {
        lemma_insert_name_at(hv, x@, j as int);
    }
    names.push(x.clone());
    proof {
        assert(str_views(names@) =~= hv.subrange(0, hv.len() as int) + seq![x@] + hv.subrange(
            hv.len() as int,
            hv.len() as int,
        ));
    }
}

/// Derives the display headers for a record list: `key` first, then the
/// alphabetically sorted distinct object field names.
pub fn headers_for(records: &Vec<Record>) -> (h: Vec<String>)
    ensures
        str_views(h@) == spec_headers(rec_views(records@)),
{
    let ghost rv = rec_views(records@);
    let mut names: Vec<String> = Vec::new();
    let mut i: usize = 0;
    while i < records.len()
        invariant
            i <= records@.len(),
            rv == rec_views(records@),
            str_views(names@) == collect_names(rv.subrange(0, i as int)),
        decreases records@.len() - i,
    {
        let ghost outer_before = str_views(names@);
        match &records[i].data {
            crate::models::Payload::Object(fields) => {
                let ghost fnames = names_of(rv[i as int].data);
                proof {
                    assert(rv[i as int].data == records@[i as int]@.data);
                    assert(fnames =~= crate::models::field_views(fields@).map_values(
                        |f: crate::models::FieldV| f.name,
                    ));
                }
                let mut j: usize = 0;
                while j < fields.len()
                    invariant
                        j <= fields@.len(),
                        fnames == names_of(rv[i as int].data),
                        fnames =~= crate::models::field_views(fields@).map_values(
                            |f: crate::models::FieldV| f.name,
                        ),
                        fnames.len() == fields@.len(),
                        str_views(names@) == add_names(outer_before, fnames.subrange(0, j as int)),
                    decreases fields@.len() - j,
                {
                    proof {
                        assert(add_names(outer_before, fnames.subrange(0, 0)) == outer_before);
                    }
                    insert_name_exec(&mut names, &fields[j].name);
                    proof {
                        let p = fnames.subrange(0, j as int + 1);
                        assert(p.drop_last() =~= fnames.subrange(0, j as int));
                        assert(p.last() == fnames[j as int]);
                        assert(fnames[j as int] == fields@[j as int]@.name);
                    }
                    j = j + 1;
                }
                proof {
                    assert(fnames.subrange(0, fnames.len() as int) =~= fnames);
                }
            },
            crate::models::Payload::Other => {
                proof {
                    assert(names_of(rv[i as int].data) == Seq::<Seq<char>>::empty());
                }
            },
        }
        proof {
            let p = rv.subrange(0, i as int + 1);
            assert(p.drop_last() =~= rv.subrange(0, i as int));
            assert(p.last() == rv[i as int]);
            assert(add_names(outer_before, names_of(rv[i as int].data).subrange(
                0,
                names_of(rv[i as int].data).len() as int,
            )) == add_names(outer_before, names_of(rv[i as int].data))) by {
                assert(names_of(rv[i as int].data).subrange(
                    0,
                    names_of(rv[i as int].data).len() as int,
                ) =~= names_of(rv[i as int].data));
            }
            assert(str_views(names@) == collect_names(p));
        }
        i = i + 1;
    }
    let mut h: Vec<String> = Vec::new();
    h.push("key".to_owned());
    let mut k: usize = 0;
    let ghost final_names = str_views(names@);
    proof {
        assert(str_views(h@) =~= seq!["key"@] + final_names.subrange(0, 0));
    }
    while k < names.len()
        invariant
            k <= names@.len(),
            final_names == str_views(names@),
            str_views(h@) =~= seq!["key"@] + final_names.subrange(0, k as int),
        decreases names@.len() - k,
    {
        let ghost hprev = h@;
        h.push(names[k].clone());
        proof {
            assert(str_views(hprev).len() == hprev.len());
            assert(hprev.len() == k + 1);
            assert(h@ == hprev.push(h@.last()));
            assert(h@.len() == k + 2);
            assert(h@.last()@ == final_names[k as int]);
            assert forall|m: int| 0 <= m < h@.len() implies str_views(h@)[m] == (seq!["key"@]
                + final_names.subrange(0, k as int + 1))[m] by {
                if m < hprev.len() {
                    assert(h@[m] == hprev[m]);
                    assert(str_views(hprev)[m] == (seq!["key"@] + final_names.subrange(
                        0,
                        k as int,
                    ))[m]);
                } else {
                    assert(h@[m] == h@.last());
                }
            }
            assert(str_views(h@) =~= seq!["key"@] + final_names.subrange(0, k as int + 1));
        }
        k = k + 1;
    }
    proof {
        assert(rv.subrange(0, rv.len() as int) =~= rv);
        assert(final_names.subrange(0, final_names.len() as int) =~= final_names);
        assert(str_views(h@) =~= spec_headers(rv));
    }
    h
}


/// One step of grouping: a record joins its type's group (records kept in
/// arrival order), or founds a new group at the sorted position.
pub open spec fn add_entry(gs: Seq<(Seq<char>, Seq<RecordV>)>, r: RecordV) -> Seq<
    (Seq<char>, Seq<RecordV>),
>
    decreases gs.len(),
{
    if gs.len() == 0 {
        seq![(r.record_type, seq![r])]
    } else if gs[0].0 == r.record_type {
        seq![(gs[0].0, gs[0].1.push(r))] + gs.drop_first()
    } else if lex_lt(r.record_type, gs[0].0) {
        seq![(r.record_type, seq![r])] + gs
    } else {
        seq![gs[0]] + add_entry(gs.drop_first(), r)
    }
}

/// Groups a record list by record type, in sorted type order, keeping
/// arrival order within each group.
pub open spec fn group_entries(rs: Seq<RecordV>) -> Seq<(Seq<char>, Seq<RecordV>)>
    decreases rs.len(),
{
    if rs.len() == 0 {
        Seq::empty()
    } else {
        add_entry(group_entries(rs.drop_last()), rs.last())
    }
}

/// Characterizes `add_entry` by position: with every group before `j`
/// strictly below the record's type and the group at `j` (if any) not
/// below it, the record joins group `j` or founds a new group there.
pub proof fn lemma_add_entry_at(gs: Seq<(Seq<char>, Seq<RecordV>)>, r: RecordV, j: int)
    requires
        0 <= j <= gs.len(),
        forall|k: int| 0 <= k < j ==> lex_lt((#[trigger] gs[k]).0, r.record_type),
        j < gs.len() ==> !lex_lt(gs[j].0, r.record_type),
    ensures
        j < gs.len() && gs[j].0 == r.record_type ==> add_entry(gs, r) == gs.update(
            j,
            (gs[j].0, gs[j].1.push(r)),
        ),
        !(j < gs.len() && gs[j].0 == r.record_type) ==> add_entry(gs, r) == gs.subrange(0, j)
            + seq![(r.record_type, seq![r])] + gs.subrange(j, gs.len() as int),
    decreases gs.len(),
{
    let rt = r.record_type;
    if gs.len() == 0 {
        assert(add_entry(gs, r) =~= gs.subrange(0, j) + seq![(rt, seq![r])] + gs.subrange(
            j,
            gs.len() as int,
        ));
    } else if j == 0 {
        if gs[0].0 == rt {
            assert(add_entry(gs, r) =~= gs.update(0, (gs[0].0, gs[0].1.push(r))));
        } else {
            assert(!lex_lt(gs[0].0, rt));
            lemma_lex_le_total(rt, gs[0].0);
            if lex_le(gs[0].0, rt) && lex_le(rt, gs[0].0) {
                lemma_lex_le_antisymmetric(rt, gs[0].0);
                assert(false);
            }
            assert(lex_lt(rt, gs[0].0));
            assert(add_entry(gs, r) =~= gs.subrange(0, 0) + seq![(rt, seq![r])] + gs.subrange(
                0,
                gs.len() as int,
            ));
        }
    } else {
        assert(lex_lt(gs[0].0, rt));
        assert(gs[0].0 != rt);
        assert(!lex_lt(rt, gs[0].0)) by {
            if lex_lt(rt, gs[0].0) {
                lemma_lex_le_antisymmetric(rt, gs[0].0);
            }
        }
        let rest = gs.drop_first();
        assert forall|k: int| 0 <= k < j - 1 implies lex_lt((#[trigger] rest[k]).0, rt) by {
            assert(rest[k] == gs[k + 1]);
        }
        if j - 1 < rest.len() {
            assert(rest[j - 1] == gs[j]);
        }
        lemma_add_entry_at(rest, r, j - 1);
        if j < gs.len() && gs[j].0 == rt {
            assert(add_entry(rest, r) == rest.update(j - 1, (rest[j - 1].0, rest[j - 1].1.push(
                r,
            ))));
            assert(add_entry(gs, r) =~= gs.update(j, (gs[j].0, gs[j].1.push(r))));
        } else {
            assert(add_entry(gs, r) =~= gs.subrange(0, j) + seq![(rt, seq![r])] + gs.subrange(
                j,
                gs.len() as int,
            )) by {
                assert(rest.subrange(0, j - 1) =~= gs.subrange(1, j));
                assert(rest.subrange(j - 1, rest.len() as int) =~= gs.subrange(
                    j,
                    gs.len() as int,
                ));
            }
        }
    }
}

/// The comparison that orders records newest first: by the timestamp
/// derived from the key, descending.
pub open spec fn ts_le_v() -> spec_fn(RecordV, RecordV) -> bool {
    |a: RecordV, b: RecordV| spec_timestamp(a.key) >= spec_timestamp(b.key)
}

/// The grouping view of an in-progress group list.
pub open spec fn group_pairs(gs: Seq<TypeGroup>) -> Seq<(Seq<char>, Seq<RecordV>)> {
    gs.map_values(|g: TypeGroup| (g.record_type@, rec_views(g.records@)))
}

/// The sort timestamp of a record.
pub fn record_ts(r: &Record) -> (t: u64)
    ensures
        t == spec_timestamp(r@.key),
{
    timestamp_of_key(r.key.as_str())
}

/// Stable-sorts records newest first by their key-derived timestamp.
fn sort_records_desc(input: Vec<Record>) -> (out: Vec<Record>)
    ensures
        rec_views(out@) == sort_stable(ts_le_v(), rec_views(input@)),
{
    let ghost le = ts_le_v();
    let ghost iv = rec_views(input@);
    let mut out: Vec<Record> = Vec::new();
    let mut i: usize = 0;
    proof {
        assert(rec_views(out@) =~= sort_stable(le, iv.subrange(0, 0)));
    }
    while i < input.len()
        invariant
            i <= input@.len(),
            iv == rec_views(input@),
            le == ts_le_v(),
            rec_views(out@) == sort_stable(le, iv.subrange(0, i as int)),
        decreases input@.len() - i,
    {
        let r = input[i].duplicate();
        let t = record_ts(&r);
        let ghost ov = rec_views(out@);
        proof {
            assert(rec_views(out@).len() == out@.len());
        }
        let mut j: usize = 0;
        while j < out.len() && record_ts(&out[j]) >= t
            invariant
                j <= out@.len(),
                ov == rec_views(out@),
                t == spec_timestamp(r@.key),
                forall|k: int| 0 <= k < j ==> le(#[trigger] ov[k], r@),
                le == ts_le_v(),
            decreases out@.len() - j,
        {
            proof {
                assert(ov[j as int] == out@[j as int]@);
            }
            j = j + 1;
        }
        proof {
            if j < out@.len() {
                assert(ov[j as int] == out@[j as int]@);
                assert(!le(ov[j as int], r@));
            }
            lemma_insert_by_at(le, r@, ov, j as int);
        }
        let ghost prev = out@;
        out.insert(j, r);
        proof {
            assert(out@ == prev.insert(j as int, out@[j as int]));
            assert(out@.len() == prev.len() + 1);
            assert forall|m: int| 0 <= m < out@.len() implies rec_views(out@)[m] == insert_by(
                le,
                out@[j as int]@,
                ov,
            )[m] by {
                assert(insert_by(le, out@[j as int]@, ov) == ov.subrange(0, j as int) + seq![
                    out@[j as int]@,
                ] + ov.subrange(j as int, ov.len() as int));
                if m < j {
                    assert(out@[m] == prev[m]);
                } else if m > j {
                    assert(out@[m] == prev[m - 1]);
                }
            }
            lemma_insert_by_len(le, out@[j as int]@, ov);
            assert(rec_views(out@) =~= insert_by(le, out@[j as int]@, ov));
            let p = iv.subrange(0, i as int + 1);
            assert(p.drop_last() =~= iv.subrange(0, i as int));
            assert(p.last() == iv[i as int]);
            assert(out@[j as int]@ == iv[i as int]);
            assert(rec_views(out@) == sort_stable(le, p));
        }
        i = i + 1;
    }
    proof {
        assert(iv.subrange(0, iv.len() as int) =~= iv);
    }
    out
}


/// The parsed records of raw entries, in iteration order.
pub open spec fn parsed_records(es: Seq<(Seq<char>, Seq<u8>)>) -> Seq<RecordV> {
    es.map_values(|e: (Seq<char>, Seq<u8>)| spec_record(e.0, e.1))
}

/// The finished group built from one (type, records) pair: records
/// ordered newest first, headers derived from them.
pub open spec fn group_of_pair(g: (Seq<char>, Seq<RecordV>)) -> GroupV {
    GroupV {
        record_type: g.0,
        records: sort_stable(ts_le_v(), g.1),
        headers: spec_headers(sort_stable(ts_le_v(), g.1)),
    }
}

/// One raw store entry: a key and its value bytes.
pub type RawEntry = (String, Vec<u8>);

/// The views of raw entries.
pub open spec fn entry_views(es: Seq<RawEntry>) -> Seq<(Seq<char>, Seq<u8>)> {
    es.map_values(|e: RawEntry| (e.0@, e.1@))
}

/// The views of a group list.
pub open spec fn snap_views(gs: Seq<TypeGroup>) -> Seq<GroupV> {
    gs.map_values(|g: TypeGroup| g@)
}

/// The whole load pipeline at the specification level: parse every entry,
/// group by record type in sorted type order, order each group newest
/// first (stable), and derive each group's headers.
pub open spec fn spec_load(entries: Seq<(Seq<char>, Seq<u8>)>) -> Seq<GroupV> {
    group_entries(parsed_records(entries)).map_values(
        |g: (Seq<char>, Seq<RecordV>)| group_of_pair(g),
    )
}

/// Places a freshly parsed record into the in-progress group list, which
/// is kept sorted by type name with arrival order inside each group.
fn place_record(groups: &mut Vec<TypeGroup>, r: Record)
    ensures
        group_pairs(final(groups)@) == add_entry(group_pairs(old(groups)@), r@),
{
    let ghost rv_r = r@;
    let ghost gp = group_pairs(groups@);
    let mut j: usize = 0;
    while j < groups.len()
        invariant
            j <= groups@.len(),
            groups@ == old(groups)@,
            gp == group_pairs(groups@),
            rv_r == r@,
            forall|k: int| 0 <= k < j ==> lex_lt((#[trigger] gp[k]).0, rv_r.record_type),
        decreases groups@.len() - j,
    {
        proof {
            assert(gp[j as int] == (groups@[j as int].record_type@, rec_views(
                groups@[j as int].records@,
            )));
        }
        if str_eq(groups[j].record_type.as_str(), r.record_type.as_str()) {
            proof {
                assert(gp[j as int].0 == rv_r.record_type);
                assert(!lex_lt(gp[j as int].0, rv_r.record_type));
                lemma_add_entry_at(gp, rv_r, j as int);
            }
            let mut g = groups.remove(j);
            let ghost mid = groups@;
            let ghost grec = rec_views(g.records@);
            g.records.push(r);
            proof {
                assert(rec_views(g.records@) =~= grec.push(rv_r));
            }
            groups.insert(j, g);
            proof {
                let target = gp.update(j as int, (gp[j as int].0, gp[j as int].1.push(rv_r)));
                assert(groups@.len() == gp.len());
                assert forall|m: int| 0 <= m < groups@.len() implies group_pairs(groups@)[m]
                    == target[m] by {
                    if m < j {
                        assert(groups@[m] == mid[m]);
                        assert(mid[m] == old(groups)@[m]);
                    } else if m == j {
                        assert(groups@[m] == groups@[j as int]);
                    } else {
                        assert(groups@[m] == mid[m - 1]);
                        assert(mid[m - 1] == old(groups)@[m]);
                    }
                }
                assert(group_pairs(groups@) =~= target);
            }
            return ;
        }
        if !str_le(groups[j].record_type.as_str(), r.record_type.as_str()) {
            proof {
                assert(!lex_le(gp[j as int].0, rv_r.record_type));
                assert(!lex_lt(gp[j as int].0, rv_r.record_type));
                lemma_add_entry_at(gp, rv_r, j as int);
            }
            let name = r.record_type.clone();
            let mut recs: Vec<Record> = Vec::new();
            recs.push(r);
            let g = TypeGroup { record_type: name, records: recs, headers: Vec::new() };
            proof {
                assert(rec_views(g.records@) =~= seq![rv_r]);
            }
            let ghost mid = groups@;
            groups.insert(j, g);
            proof {
                let target = gp.subrange(0, j as int) + seq![(rv_r.record_type, seq![rv_r])]
                    + gp.subrange(j as int, gp.len() as int);
                assert(groups@.len() == gp.len() + 1);
                assert forall|m: int| 0 <= m < groups@.len() implies group_pairs(groups@)[m]
                    == target[m] by {
                    if m < j {
                        assert(groups@[m] == mid[m]);
                    } else if m > j {
                        assert(groups@[m] == mid[m - 1]);
                    }
                }
                assert(group_pairs(groups@) =~= target);
            }
            return ;
        }
        proof {
            assert(lex_le(gp[j as int].0, rv_r.record_type));
            assert(gp[j as int].0 != rv_r.record_type);
        }
        j = j + 1;
    }
    proof {
        lemma_add_entry_at(gp, rv_r, gp.len() as int);
    }
    let name = r.record_type.clone();
    let mut recs: Vec<Record> = Vec::new();
    recs.push(r);
    let g = TypeGroup { record_type: name, records: recs, headers: Vec::new() };
    proof {
        assert(rec_views(g.records@) =~= seq![rv_r]);
    }
    let ghost mid = groups@;
    groups.push(g);
    proof {
        let target = gp.subrange(0, gp.len() as int) + seq![(rv_r.record_type, seq![rv_r])]
            + gp.subrange(gp.len() as int, gp.len() as int);
        assert forall|m: int| 0 <= m < groups@.len() implies group_pairs(groups@)[m]
            == target[m] by {
            if m < gp.len() {
                assert(groups@[m] == mid[m]);
            }
        }
        assert(group_pairs(groups@) =~= target);
    }
}

/// Builds a full snapshot from raw store entries: parses every entry,
/// groups by record type (types sorted by name), orders each group newest
/// first, and derives each group's headers.
pub fn build_snapshot(entries: &Vec<RawEntry>) -> (s: Snapshot)
    ensures
        (s@ == spec_load(entry_views(entries@))),
{
    let ghost ev = entry_views(entries@);
    let ghost rv = parsed_records(ev);
    let mut groups: Vec<TypeGroup> = Vec::new();
    let mut i: usize = 0;
    proof {
        assert(group_pairs(groups@) =~= group_entries(rv.subrange(0, 0)));
    }
    while i < entries.len()
        invariant
            i <= entries@.len(),
            ev == entry_views(entries@),
            rv == parsed_records(ev),
            group_pairs(groups@) == group_entries(rv.subrange(0, i as int)),
        decreases entries@.len() - i,
    {
        let r = deserialize_record(entries[i].0.as_str(), entries[i].1.as_slice());
        proof {
            assert(ev[i as int] == (entries@[i as int].0@, entries@[i as int].1@));
            assert(rv[i as int] == spec_record(ev[i as int].0, ev[i as int].1));
            assert(r@ == rv[i as int]);
        }
        place_record(&mut groups, r);
        proof {
            let p = rv.subrange(0, i as int + 1);
            assert(p.drop_last() =~= rv.subrange(0, i as int));
            assert(p.last() == rv[i as int]);
            assert(group_pairs(groups@) == group_entries(p));
        }
        i = i + 1;
    }
    proof {
        assert(rv.subrange(0, rv.len() as int) =~= rv);
    }
    let ghost gp_final = group_pairs(groups@);
    let mut out: Vec<TypeGroup> = Vec::new();
    proof {
        assert(snap_views(out@) =~= spec_load(ev).subrange(0, 0));
        assert(group_pairs(groups@) =~= gp_final.subrange(0, gp_final.len() as int));
    }
    while groups.len() > 0
        invariant
            out@.len() + groups@.len() == gp_final.len(),
            group_pairs(groups@) == gp_final.subrange(out@.len() as int, gp_final.len() as int),
            snap_views(out@) == spec_load(ev).subrange(0, out@.len() as int),
            spec_load(ev).len() == gp_final.len(),
            gp_final == group_entries(rv),
            rv == parsed_records(ev),
        decreases groups@.len(),
    {
        let ghost done = out@.len() as int;
        let ghost gprev = groups@;
        let g = groups.remove(0);
        proof {
            assert(group_pairs(gprev)[0] == gp_final[done]);
            assert(g@.record_type == gp_final[done].0);
            assert(rec_views(g.records@) == gp_final[done].1);
            assert(groups@ =~= gprev.subrange(1, gprev.len() as int));
            assert forall|m: int| 0 <= m < groups@.len() implies group_pairs(groups@)[m]
                == gp_final.subrange(done + 1, gp_final.len() as int)[m] by {
                assert(groups@[m] == gprev[m + 1]);
                assert(group_pairs(gprev)[m + 1] == gp_final.subrange(
                    done,
                    gp_final.len() as int,
                )[m + 1]);
            }
            assert(group_pairs(groups@) =~= gp_final.subrange(done + 1, gp_final.len() as int));
        }
        let sorted = sort_records_desc(g.records);
        let headers = headers_for(&sorted);
        let finished = TypeGroup { record_type: g.record_type, records: sorted, headers: headers };
        proof {
            assert(finished@ == group_of_pair(gp_final[done]));
            assert(spec_load(ev)[done] == group_of_pair(gp_final[done]));
        }
        let ghost oprev = out@;
        out.push(finished);
        proof {
            assert forall|m: int| 0 <= m < out@.len() implies snap_views(out@)[m] == spec_load(
                ev,
            ).subrange(0, done + 1)[m] by {
                if m < done {
                    assert(out@[m] == oprev[m]);
                    assert(snap_views(oprev)[m] == spec_load(ev).subrange(0, done)[m]);
                } else {
                    assert(out@[m] == out@.last());
                }
            }
            assert(snap_views(out@) =~= spec_load(ev).subrange(0, done + 1));
        }
    }
    proof {
        assert(spec_load(ev).subrange(0, spec_load(ev).len() as int) =~= spec_load(ev));
    }
    let s = Snapshot { groups: out };
    proof {
        assert(s@ =~= snap_views(s.groups@));
    }
    s
}


/// Finds the group of the given type name.
pub fn find_group(groups: &Vec<TypeGroup>, name: &String) -> (r: Option<usize>)
    ensures
        match r {
            Some(i) => i < groups@.len() && snap_views(groups@)[i as int].record_type == name@
                && records_of(snap_views(groups@), name@) == snap_views(
                groups@,
            )[i as int].records && headers_of(snap_views(groups@), name@) == snap_views(
                groups@,
            )[i as int].headers && has_type(snap_views(groups@), name@),
            None => !has_type(snap_views(groups@), name@),
        },
{
    let ghost sv = snap_views(groups@);
    proof {
        assert(sv.skip(0) =~= sv);
    }
    let mut i: usize = 0;
    while i < groups.len()
        invariant
            i <= groups@.len(),
            sv == snap_views(groups@),
            records_of(sv, name@) == records_of(sv.skip(i as int), name@),
            headers_of(sv, name@) == headers_of(sv.skip(i as int), name@),
            forall|k: int| 0 <= k < i ==> (#[trigger] sv[k]).record_type != name@,
        decreases groups@.len() - i,
    {
        proof {
            assert(sv.skip(i as int)[0] == sv[i as int]);
        }
        if str_eq(groups[i].record_type.as_str(), name.as_str()) {
            return Some(i);
        }
        proof {
            assert(sv.skip(i as int).drop_first() =~= sv.skip(i as int + 1));
        }
        i = i + 1;
    }
    proof {
        assert(sv.skip(i as int).len() == 0);
        if has_type(sv, name@) {
            let w = choose|w: int| 0 <= w < sv.len() && (#[trigger] sv[w]).record_type == name@;
            assert(false);
        }
    }
    None
}

/// The predicate that keeps every record except the one with this key.
pub open spec fn keep_other_keys(key: Seq<char>) -> spec_fn(RecordV) -> bool {
    |r: RecordV| r.key != key
}

/// A snapshot after the record with `key` is dropped from the group named
/// `table`; every other group is untouched, and headers stay as they are
/// until the next refresh recomputes them.
pub open spec fn spec_delete(s: Seq<GroupV>, table: Seq<char>, key: Seq<char>) -> Seq<GroupV> {
    Seq::new(
        s.len(),
        |i: int|
            if s[i].record_type == table {
                GroupV {
                    record_type: s[i].record_type,
                    records: s[i].records.filter(keep_other_keys(key)),
                    headers: s[i].headers,
                }
            } else {
                s[i]
            },
    )
}

/// Drops every record with the given key from a record list.
fn retain_other_keys(records: Vec<Record>, key: &String) -> (out: Vec<Record>)
    ensures
        rec_views(out@) == rec_views(records@).filter(keep_other_keys(key@)),
{
    let ghost rv = rec_views(records@);
    let ghost pred = keep_other_keys(key@);
    let mut out: Vec<Record> = Vec::new();
    let mut i: usize = 0;
    proof {
        reveal(Seq::filter);
        assert(rec_views(out@) =~= rv.subrange(0, 0).filter(pred));
    }
    while i < records.len()
        invariant
            i <= records@.len(),
            rv == rec_views(records@),
            pred == keep_other_keys(key@),
            rec_views(out@) == rv.subrange(0, i as int).filter(pred),
        decreases records@.len() - i,
    {
        let ghost oprev = out@;
        let keep = !str_eq(records[i].key.as_str(), key.as_str());
        if keep {
            out.push(records[i].duplicate());
        }
        proof {
            reveal(Seq::filter);
            let p = rv.subrange(0, i as int + 1);
            assert(p.drop_last() =~= rv.subrange(0, i as int));
            assert(p.last() == rv[i as int]);
            assert(pred(rv[i as int]) == keep);
            if keep {
                assert(rec_views(out@) =~= rec_views(oprev).push(rv[i as int]));
            }
            assert(rec_views(out@) =~= p.filter(pred));
        }
        i = i + 1;
    }
    proof {
        assert(rv.subrange(0, rv.len() as int) =~= rv);
    }
    out
}

/// Owns the current published snapshot on the consumer side and applies
/// local mutations: snapshot replacement, optimistic deletion, header
/// recomputation.
pub struct DataManager {
    pub snapshot: Snapshot,
}

impl DataManager {
    /// Starts with an empty snapshot: no types, no records.
    pub fn new() -> (r: DataManager)
        ensures
            r.snapshot@ == Seq::<GroupV>::empty(),
    {
        let r = DataManager { snapshot: Snapshot { groups: Vec::new() } };
        proof {
            assert(r.snapshot@ =~= Seq::<GroupV>::empty());
        }
        r
    }

    /// Applies a drained delivery, if any: the fresh snapshot replaces the
    /// held one wholesale. Returns whether anything changed.
    pub fn try_recv(&mut self, delivery: Option<Snapshot>) -> (updated: bool)
        ensures
            match delivery {
                Some(s) => updated && final(self).snapshot@ == s@,
                None => !updated && *final(self) == *old(self),
            },
    {
        match delivery {
            Some(s) => {
                self.snapshot = s;
                true
            },
            None => false,
        }
    }

    /// The current snapshot's groups.
    pub fn get_records(&self) -> (r: &Vec<TypeGroup>)
        ensures
            snap_views(r@) == self.snapshot@,
    {
        &self.snapshot.groups
    }

    /// The headers of one type's group, when present.
    pub fn get_headers(&self, record_type: &String) -> (r: Option<&Vec<String>>)
        ensures
            match r {
                Some(h) => has_type(self.snapshot@, record_type@) && str_views(h@) == headers_of(
                    self.snapshot@,
                    record_type@,
                ),
                None => !has_type(self.snapshot@, record_type@),
            },
    {
        match find_group(&self.snapshot.groups, record_type) {
            Some(i) => Some(&self.snapshot.groups[i].headers),
            None => None,
        }
    }

    /// Drops the record with this key from the named group of the held
    /// snapshot (the read-your-own-write step after a successful store
    /// delete). Headers stay until the next refresh.
    pub fn delete_record(&mut self, table: &String, key: &String)
        ensures
            final(self).snapshot@ == spec_delete(old(self).snapshot@, table@, key@),
    {
        let ghost sv = self.snapshot@;
        let ghost target = spec_delete(sv, table@, key@);
        let mut i: usize = 0;
        while i < self.snapshot.groups.len()
            invariant
                i <= self.snapshot.groups@.len(),
                self.snapshot.groups@.len() == sv.len(),
                sv == old(self).snapshot@,
                target == spec_delete(sv, table@, key@),
                forall|m: int|
                    i <= m < sv.len() ==> #[trigger] snap_views(self.snapshot.groups@)[m]
                        == sv[m],
                forall|m: int|
                    0 <= m < i ==> #[trigger] snap_views(self.snapshot.groups@)[m] == target[m],
            decreases self.snapshot.groups@.len() - i,
        {
            proof {
                assert(snap_views(self.snapshot.groups@)[i as int] == sv[i as int]);
            }
            if str_eq(self.snapshot.groups[i].record_type.as_str(), table.as_str()) {
                let ghost gprev = self.snapshot.groups@;
                let mut g = self.snapshot.groups.remove(i);
                let ghost mid = self.snapshot.groups@;
                proof {
                    assert(snap_views(gprev)[i as int] == gprev[i as int]@);
                    assert(rec_views(g.records@) == sv[i as int].records);
                }
                g.records = retain_other_keys(g.records, key);
                self.snapshot.groups.insert(i, g);
                proof {
                    assert forall|m: int|
                        0 <= m < sv.len() implies #[trigger] snap_views(
                        self.snapshot.groups@,
                    )[m] == (if m == i {
                        target[m]
                    } else {
                        snap_views(gprev)[m]
                    }) by {
                        if m < i {
                            assert(self.snapshot.groups@[m] == mid[m]);
                            assert(mid[m] == gprev[m]);
                        } else if m > i {
                            assert(self.snapshot.groups@[m] == mid[m - 1]);
                            assert(mid[m - 1] == gprev[m]);
                        } else {
                            assert(self.snapshot.groups@[m] == self.snapshot.groups@[i as int]);
                            assert(sv[m].record_type == table@);
                        }
                    }
                }
            } else {
                proof {
                    assert(sv[i as int].record_type != table@);
                    assert(target[i as int] == sv[i as int]);
                }
            }
            i = i + 1;
        }
        proof {
            assert(self.snapshot@ =~= target);
        }
    }

    /// Recomputes every group's headers from its current records.
    pub fn collect_headers(&mut self)
        ensures
            final(self).snapshot@.len() == old(self).snapshot@.len(),
            forall|i: int|
                0 <= i < old(self).snapshot@.len() ==> {
                    let g = old(self).snapshot@[i];
                    #[trigger] final(self).snapshot@[i] == (GroupV {
                        record_type: g.record_type,
                        records: g.records,
                        headers: spec_headers(g.records),
                    })
                },
    {
        let ghost sv = self.snapshot@;
        let mut i: usize = 0;
        while i < self.snapshot.groups.len()
            invariant
                i <= self.snapshot.groups@.len(),
                self.snapshot.groups@.len() == sv.len(),
                sv == old(self).snapshot@,
                forall|m: int|
                    i <= m < sv.len() ==> #[trigger] snap_views(self.snapshot.groups@)[m]
                        == sv[m],
                forall|m: int|
                    0 <= m < i ==> #[trigger] snap_views(self.snapshot.groups@)[m] == (GroupV {
                        record_type: sv[m].record_type,
                        records: sv[m].records,
                        headers: spec_headers(sv[m].records),
                    }),
            decreases self.snapshot.groups@.len() - i,
        {
            let ghost gprev = self.snapshot.groups@;
            let mut g = self.snapshot.groups.remove(i);
            let ghost mid = self.snapshot.groups@;
            let h = headers_for(&g.records);
            g.headers = h;
            self.snapshot.groups.insert(i, g);
            proof {
                assert(snap_views(gprev)[i as int] == gprev[i as int]@);
                assert(gprev[i as int]@ == sv[i as int]);
                assert forall|m: int|
                    0 <= m < sv.len() implies #[trigger] snap_views(self.snapshot.groups@)[m]
                    == (if m == i {
                    GroupV {
                        record_type: sv[m].record_type,
                        records: sv[m].records,
                        headers: spec_headers(sv[m].records),
                    }
                } else {
                    snap_views(gprev)[m]
                }) by {
                    if m < i {
                        assert(self.snapshot.groups@[m] == mid[m]);
                        assert(mid[m] == gprev[m]);
                    } else if m > i {
                        assert(self.snapshot.groups@[m] == mid[m - 1]);
                        assert(mid[m - 1] == gprev[m]);
                    } else {
                        assert(self.snapshot.groups@[m] == self.snapshot.groups@[i as int]);
                    }
                }
            }
            i = i + 1;
        }
    }
}

/// The single-slot handoff between the background refresh loop and the
/// interactive loop: the producer overwrites, the consumer drains without
/// blocking. `None` is the idle state, `Some` a pending delivery.
pub struct Mailbox {
    pub slot: Option<Snapshot>,
}

impl Mailbox {
    /// Starts idle: nothing pending.
    pub fn new() -> (r: Mailbox)
        ensures
            r.slot is None,
    {
        Mailbox { slot: None }
    }

    /// Publishes a fresh snapshot, replacing any pending one: the consumer
    /// never sees a stale snapshot once a fresher one exists, and the
    /// producer never waits.
    pub fn publish(&mut self, s: Snapshot)
        ensures
            match final(self).slot {
                Some(p) => p@ == s@,
                None => false,
            },
    {
        self.slot = Some(s);
    }

    /// Drains the pending snapshot, if any, leaving the slot idle. Never
    /// blocks.
    pub fn try_pull(&mut self) -> (r: Option<Snapshot>)
        ensures
            final(self).slot is None,
            (r is Some) == (old(self).slot is Some),
            r matches Some(s) ==> old(self).slot matches Some(p) && p@ == s@,
    {
        let mut taken: Option<Snapshot> = None;
        core::mem::swap(&mut taken, &mut self.slot);
        taken
    }
}

/// Loader state for full reloads: where the store lives and when it was
/// last loaded (milliseconds; 0 means never).
pub struct FullDataLoader {
    pub db_path: String,
    pub last_load_time: u64,
}

impl FullDataLoader {
    pub fn new(db_path: String) -> (r: FullDataLoader)
        ensures
            r.db_path@ == db_path@,
            r.last_load_time == 0,
    {
        FullDataLoader { db_path: db_path, last_load_time: 0 }
    }

    /// Builds the full snapshot from the entries the store handed back.
    pub fn load_records(&self, entries: &Vec<RawEntry>) -> (s: Snapshot)
        ensures
            (s@ == spec_load(entry_views(entries@))),
    {
        build_snapshot(entries)
    }

    /// Decides whether the store changed since the last load, given its
    /// last-modification marker; an unreadable marker counts as unchanged.
    pub fn has_changed(&self, modified: Option<u64>) -> (r: bool)
        ensures
            r == match modified {
                Some(m) => m > self.last_load_time,
                None => false,
            },
    {
        match modified {
            Some(m) => m > self.last_load_time,
            None => false,
        }
    }

    /// Records the moment of a completed load.
    pub fn mark_loaded(&mut self, now: u64)
        ensures
            final(self).db_path@ == old(self).db_path@,
            final(self).last_load_time == now,
    {
        self.last_load_time = now;
    }
}


/// The predicate that keeps records of one type.
pub open spec fn same_type_pred(t: Seq<char>) -> spec_fn(RecordV) -> bool {
    |r: RecordV| r.record_type == t
}

/// The parsed records of one raw page, restricted to one record type:
/// entries at raw positions `[page * size, page * size + size)`, clipped
/// to the entry list.
pub open spec fn page_of(
    ev: Seq<(Seq<char>, Seq<u8>)>,
    page: int,
    size: int,
    t: Seq<char>,
) -> Seq<RecordV> {
    let lo = vstd::math::min(page * size, ev.len() as int);
    let hi = vstd::math::min(page * size + size, ev.len() as int);
    parsed_records(ev.subrange(lo, hi)).filter(same_type_pred(t))
}

/// Loader state for page-at-a-time reads of one record type.
pub struct PaginatedDataLoader {
    pub db_path: String,
    pub page_size: usize,
    pub current_page: usize,
    pub last_load_time: u64,
}

impl PaginatedDataLoader {
    pub fn new(db_path: String, page_size: usize) -> (r: PaginatedDataLoader)
        ensures
            r.db_path@ == db_path@,
            r.page_size == page_size,
            r.current_page == 0,
            r.last_load_time == 0,
    {
        PaginatedDataLoader {
            db_path: db_path,
            page_size: page_size,
            current_page: 0,
            last_load_time: 0,
        }
    }

    pub fn next_page(&mut self)
        requires
            old(self).current_page < usize::MAX,
        ensures
            final(self).db_path@ == old(self).db_path@,
            final(self).page_size == old(self).page_size,
            final(self).last_load_time == old(self).last_load_time,
            final(self).current_page == old(self).current_page + 1,
    {
        self.current_page = self.current_page + 1;
    }

    pub fn prev_page(&mut self)
        ensures
            final(self).db_path@ == old(self).db_path@,
            final(self).page_size == old(self).page_size,
            final(self).last_load_time == old(self).last_load_time,
            final(self).current_page == if old(self).current_page > 0 {
                old(self).current_page - 1
            } else {
                0
            },
    {
        if self.current_page > 0 {
            self.current_page = self.current_page - 1;
        }
    }

    /// The records of the current page: the entries at raw positions
    /// `[page * size, page * size + size)`, parsed, kept when they carry
    /// the wanted record type, and ordered newest first.
    pub fn load_page(&self, entries: &Vec<RawEntry>, record_type: &String) -> (out: Vec<Record>)
        requires
            self.current_page * self.page_size + self.page_size <= usize::MAX,
        ensures
            rec_views(out@) == sort_stable(
                ts_le_v(),
                page_of(
                    entry_views(entries@),
                    self.current_page as int,
                    self.page_size as int,
                    record_type@,
                ),
            ),
    {
        let ghost ev = entry_views(entries@);
        let ghost pred = same_type_pred(record_type@);
        let start: usize = self.current_page * self.page_size;
        let end: usize = start + self.page_size;
        let ghost lo = vstd::math::min(start as int, ev.len() as int);
        let ghost hi = vstd::math::min(end as int, ev.len() as int);
        if start >= entries.len() {
            let empty: Vec<Record> = Vec::new();
            proof {
                reveal(Seq::filter);
                assert(lo == hi);
                assert(ev.subrange(lo, hi).len() == 0);
                assert(parsed_records(ev.subrange(lo, hi)).len() == 0);
                assert(rec_views(empty@) =~= sort_stable(
                    ts_le_v(),
                    parsed_records(ev.subrange(lo, hi)).filter(pred),
                ));
            }
            return empty;
        }
        let mut picked: Vec<Record> = Vec::new();
        let mut i: usize = start;
        proof {
            reveal(Seq::filter);
            assert(lo == start as int);
            assert(rec_views(picked@) =~= parsed_records(ev.subrange(lo, lo)).filter(pred));
        }
        while i < entries.len() && i < end
            invariant
                start <= i,
                lo == start as int,
                hi == vstd::math::min(end as int, ev.len() as int),
                i as int <= hi,
                start <= end,
                ev == entry_views(entries@),
                pred == same_type_pred(record_type@),
                rec_views(picked@) == parsed_records(ev.subrange(lo, i as int)).filter(pred),
            decreases entries@.len() - i,
        {
            let r = deserialize_record(entries[i].0.as_str(), entries[i].1.as_slice());
            proof {
                assert(ev[i as int] == (entries@[i as int].0@, entries@[i as int].1@));
                assert(r@ == spec_record(ev[i as int].0, ev[i as int].1));
            }
            let ghost pprev = picked@;
            let keep = str_eq(r.record_type.as_str(), record_type.as_str());
            if keep {
                picked.push(r);
            }
            proof {
                reveal(Seq::filter);
                let p = ev.subrange(lo, i as int + 1);
                let q = parsed_records(p);
                assert(q.drop_last() =~= parsed_records(ev.subrange(lo, i as int)));
                assert(q.last() == spec_record(ev[i as int].0, ev[i as int].1));
                assert(pred(q.last()) == keep);
                if keep {
                    assert(rec_views(picked@) =~= rec_views(pprev).push(q.last()));
                }
                assert(rec_views(picked@) =~= q.filter(pred));
            }
            i = i + 1;
        }
        proof {
            assert(i as int == hi);
            assert(ev.subrange(lo, i as int) =~= ev.subrange(lo, hi));
        }
        sort_records_desc(picked)
    }

    /// Builds the full snapshot from the entries the store handed back.
    pub fn load_records(&self, entries: &Vec<RawEntry>) -> (s: Snapshot)
        ensures
            (s@ == spec_load(entry_views(entries@))),
    {
        build_snapshot(entries)
    }

    /// Decides whether the store changed since the last load, given its
    /// last-modification marker; an unreadable marker counts as unchanged.
    pub fn has_changed(&self, modified: Option<u64>) -> (r: bool)
        ensures
            r == match modified {
                Some(m) => m > self.last_load_time,
                None => false,
            },
    {
        match modified {
            Some(m) => m > self.last_load_time,
            None => false,
        }
    }
}

/// Loading is deterministic: two loads of the same unchanged entries
/// yield snapshots with identical records and identical headers for every
/// type.
pub proof fn lemma_load_idempotent(
    entries: Seq<(Seq<char>, Seq<u8>)>,
    s1: Seq<GroupV>,
    s2: Seq<GroupV>,
)
    requires
        s1 == spec_load(entries),
        s2 == spec_load(entries),
    ensures
        forall|t: Seq<char>| records_of(s1, t) == records_of(s2, t),
        forall|t: Seq<char>| headers_of(s1, t) == headers_of(s2, t),
{
}


/// Names lists stay strictly sorted under `insert_name`.
pub open spec fn strictly_sorted_names(h: Seq<Seq<char>>) -> bool {
    forall|i: int| 0 <= i < h.len() - 1 ==> lex_lt(#[trigger] h[i], h[i + 1])
}

pub proof fn lemma_insert_name_sorted(h: Seq<Seq<char>>, x: Seq<char>)
    requires
        strictly_sorted_names(h),
    ensures
        strictly_sorted_names(insert_name(h, x)),
    decreases h.len(),
{
    let out = insert_name(h, x);
    if h.len() == 0 {
    } else if h[0] == x {
    } else if lex_lt(x, h[0]) {
        assert forall|i: int| 0 <= i < out.len() - 1 implies lex_lt(
            #[trigger] out[i],
            out[i + 1],
        ) by {
            if i == 0 {
                assert(out[0] == x);
                assert(out[1] == h[0]);
            } else {
                assert(out[i] == h[i - 1]);
                assert(out[i + 1] == h[i]);
            }
        }
    } else {
        let rest = h.drop_first();
        assert(strictly_sorted_names(rest)) by {
            assert forall|i: int| 0 <= i < rest.len() - 1 implies lex_lt(
                #[trigger] rest[i],
                rest[i + 1],
            ) by {
                assert(rest[i] == h[i + 1]);
                assert(rest[i + 1] == h[i + 2]);
            }
        }
        lemma_insert_name_sorted(rest, x);
        let inner = insert_name(rest, x);
        assert(!lex_lt(x, h[0]) && h[0] != x);
        assert(lex_lt(h[0], x)) by {
            lemma_lex_le_total(x, h[0]);
            if lex_le(x, h[0]) {
                lemma_lex_le_antisymmetric(x, h[0]);
            }
        }
        assert forall|i: int| 0 <= i < out.len() - 1 implies lex_lt(
            #[trigger] out[i],
            out[i + 1],
        ) by {
            lemma_insert_name_len(rest, x);
            if i == 0 {
                assert(out[1] == inner[0]);
                if rest.len() == 0 {
                    assert(inner[0] == x);
                } else if rest[0] == x {
                    assert(inner[0] == rest[0]);
                    assert(lex_lt(h[0], h[1]));
                } else if lex_lt(x, rest[0]) {
                    assert(inner[0] == x);
                } else {
                    assert(inner[0] == rest[0]);
                    assert(lex_lt(h[0], h[1]));
                }
            } else {
                assert(out[i] == inner[i - 1]);
                assert(out[i + 1] == inner[i]);
            }
        }
    }
}

pub proof fn lemma_insert_name_len(h: Seq<Seq<char>>, x: Seq<char>)
    ensures
        insert_name(h, x).len() == h.len() || insert_name(h, x).len() == h.len() + 1,
        insert_name(h, x).len() >= 1,
    decreases h.len(),
{
    if h.len() != 0 && h[0] != x && !lex_lt(x, h[0]) {
        lemma_insert_name_len(h.drop_first(), x);
    }
}

/// Membership through `insert_name`: exactly the old names plus `x`.
pub proof fn lemma_insert_name_contains(h: Seq<Seq<char>>, x: Seq<char>, y: Seq<char>)
    ensures
        insert_name(h, x).contains(y) <==> (h.contains(y) || y == x),
    decreases h.len(),
{
    let out = insert_name(h, x);
    if h.len() == 0 {
        assert(out =~= seq![x]);
        if y == x {
            assert(out[0] == y);
        }
        assert(!h.contains(y));
    } else if h[0] == x {
        if y == x {
            assert(h[0] == y);
        }
    } else if lex_lt(x, h[0]) {
        assert(out =~= seq![x] + h);
        if out.contains(y) {
            let j = choose|j: int| 0 <= j < out.len() && out[j] == y;
            if j == 0 {
                assert(y == x);
            } else {
                assert(h[j - 1] == y);
            }
        }
        if h.contains(y) {
            let j = choose|j: int| 0 <= j < h.len() && h[j] == y;
            assert(out[j + 1] == y);
        }
        if y == x {
            assert(out[0] == y);
        }
    } else {
        let rest = h.drop_first();
        lemma_insert_name_contains(rest, x, y);
        assert(out =~= seq![h[0]] + insert_name(rest, x));
        if out.contains(y) {
            let j = choose|j: int| 0 <= j < out.len() && out[j] == y;
            if j == 0 {
                assert(h[0] == y);
            } else {
                assert(insert_name(rest, x).contains(y)) by {
                    assert(insert_name(rest, x)[j - 1] == y);
                }
                if rest.contains(y) {
                    let m = choose|m: int| 0 <= m < rest.len() && rest[m] == y;
                    assert(h[m + 1] == y);
                }
            }
        }
        if h.contains(y) {
            let j = choose|j: int| 0 <= j < h.len() && h[j] == y;
            if j == 0 {
                assert(out[0] == y);
            } else {
                assert(rest[j - 1] == y);
                assert(insert_name(rest, x).contains(y));
                let m = choose|m: int| 0 <= m < insert_name(rest, x).len() && insert_name(
                    rest,
                    x,
                )[m] == y;
                assert(out[m + 1] == y);
            }
        }
        if y == x {
            assert(insert_name(rest, x).contains(y));
            let m = choose|m: int| 0 <= m < insert_name(rest, x).len() && insert_name(rest, x)[m]
                == y;
            assert(out[m + 1] == y);
        }
    }
}

pub proof fn lemma_add_names_sorted(h: Seq<Seq<char>>, names: Seq<Seq<char>>)
    requires
        strictly_sorted_names(h),
    ensures
        strictly_sorted_names(add_names(h, names)),
    decreases names.len(),
{
    if names.len() != 0 {
        lemma_add_names_sorted(h, names.drop_last());
        lemma_insert_name_sorted(add_names(h, names.drop_last()), names.last());
    }
}

pub proof fn lemma_add_names_contains(h: Seq<Seq<char>>, names: Seq<Seq<char>>, y: Seq<char>)
    ensures
        add_names(h, names).contains(y) <==> (h.contains(y) || names.contains(y)),
    decreases names.len(),
{
    if names.len() == 0 {
        assert(!names.contains(y));
    } else {
        lemma_add_names_contains(h, names.drop_last(), y);
        lemma_insert_name_contains(add_names(h, names.drop_last()), names.last(), y);
        if names.contains(y) {
            let j = choose|j: int| 0 <= j < names.len() && names[j] == y;
            if j < names.len() - 1 {
                assert(names.drop_last()[j] == y);
            }
        }
        if names.drop_last().contains(y) {
            let j = choose|j: int| 0 <= j < names.drop_last().len() && names.drop_last()[j] == y;
            assert(names[j] == y);
        }
        if y == names.last() {
            assert(names[names.len() - 1] == y);
        }
    }
}

pub proof fn lemma_collect_names_sorted(rs: Seq<RecordV>)
    ensures
        strictly_sorted_names(collect_names(rs)),
    decreases rs.len(),
{
    if rs.len() != 0 {
        lemma_collect_names_sorted(rs.drop_last());
        lemma_add_names_sorted(collect_names(rs.drop_last()), names_of(rs.last().data));
    }
}

pub proof fn lemma_collect_names_contains(rs: Seq<RecordV>, y: Seq<char>)
    ensures
        collect_names(rs).contains(y) <==> exists|i: int|
            0 <= i < rs.len() && names_of(#[trigger] rs[i].data).contains(y),
    decreases rs.len(),
{
    if rs.len() == 0 {
    } else {
        lemma_collect_names_contains(rs.drop_last(), y);
        lemma_add_names_contains(
            collect_names(rs.drop_last()),
            names_of(rs.last().data),
            y,
        );
        if collect_names(rs).contains(y) {
            if names_of(rs.last().data).contains(y) {
                assert(names_of(rs[rs.len() - 1].data).contains(y));
            } else {
                let i = choose|i: int|
                    0 <= i < rs.drop_last().len() && names_of(
                        #[trigger] rs.drop_last()[i].data,
                    ).contains(y);
                assert(rs.drop_last()[i] == rs[i]);
                assert(names_of(rs[i].data).contains(y));
            }
        }
        if exists|i: int| 0 <= i < rs.len() && names_of(#[trigger] rs[i].data).contains(y) {
            let i = choose|i: int| 0 <= i < rs.len() && names_of(#[trigger] rs[i].data).contains(
                y,
            );
            if i < rs.len() - 1 {
                assert(rs.drop_last()[i] == rs[i]);
                assert(names_of(rs.drop_last()[i].data).contains(y));
            } else {
                assert(names_of(rs.last().data).contains(y));
            }
        }
    }
}

/// Header derivation law: a type's headers are always the synthetic
/// `key` column followed by the alphabetically sorted distinct union of
/// the object field names over its records; records with no object
/// payloads contribute nothing, so a type with only such records gets
/// exactly the `key` column.
pub proof fn lemma_headers_shape(rs: Seq<RecordV>)
    ensures
        spec_headers(rs).len() >= 1,
        spec_headers(rs)[0] == "key"@,
        forall|i: int|
            1 <= i < spec_headers(rs).len() - 1 ==> lex_lt(
                #[trigger] spec_headers(rs)[i],
                spec_headers(rs)[i + 1],
            ),
        forall|y: Seq<char>|
            #[trigger] collect_names(rs).contains(y) <==> exists|i: int|
                0 <= i < rs.len() && names_of(#[trigger] rs[i].data).contains(y),
        (forall|i: int| 0 <= i < rs.len() ==> names_of(#[trigger] rs[i].data) == Seq::<
            Seq<char>,
        >::empty()) ==> spec_headers(rs) == seq!["key"@],
{
    lemma_collect_names_sorted(rs);
    assert forall|y: Seq<char>| #[trigger]
        collect_names(rs).contains(y) <==> exists|i: int|
            0 <= i < rs.len() && names_of(#[trigger] rs[i].data).contains(y) by {
        lemma_collect_names_contains(rs, y);
    }
    assert forall|i: int|
        1 <= i < spec_headers(rs).len() - 1 implies lex_lt(
        #[trigger] spec_headers(rs)[i],
        spec_headers(rs)[i + 1],
    ) by {
        assert(spec_headers(rs)[i] == collect_names(rs)[i - 1]);
        assert(spec_headers(rs)[i + 1] == collect_names(rs)[i]);
    }
    if forall|i: int| 0 <= i < rs.len() ==> names_of(#[trigger] rs[i].data) == Seq::<
        Seq<char>,
    >::empty() {
        assert(collect_names(rs).len() == 0) by {
            if collect_names(rs).len() > 0 {
                let y = collect_names(rs)[0];
                assert(collect_names(rs).contains(y));
                lemma_collect_names_contains(rs, y);
                let i = choose|i: int|
                    0 <= i < rs.len() && names_of(#[trigger] rs[i].data).contains(y);
                assert(false);
            }
        }
        assert(spec_headers(rs) =~= seq!["key"@]);
    }
}


/// Group names in an in-progress grouping are strictly sorted.
pub open spec fn groups_sorted(gs: Seq<(Seq<char>, Seq<RecordV>)>) -> bool {
    forall|i: int| 0 <= i < gs.len() - 1 ==> lex_lt((#[trigger] gs[i]).0, gs[i + 1].0)
}

pub proof fn lemma_add_entry_sorted(gs: Seq<(Seq<char>, Seq<RecordV>)>, r: RecordV)
    requires
        groups_sorted(gs),
    ensures
        groups_sorted(add_entry(gs, r)),
    decreases gs.len(),
{
    let rt = r.record_type;
    let out = add_entry(gs, r);
    if gs.len() == 0 {
    } else if gs[0].0 == rt {
        assert forall|i: int| 0 <= i < out.len() - 1 implies lex_lt(
            (#[trigger] out[i]).0,
            out[i + 1].0,
        ) by {
            if i > 0 {
                assert(out[i] == gs.drop_first()[i - 1]);
                assert(out[i + 1] == gs.drop_first()[i]);
                assert(gs.drop_first()[i - 1] == gs[i]);
                assert(gs.drop_first()[i] == gs[i + 1]);
            } else {
                assert(out[1] == gs.drop_first()[0]);
                assert(gs.drop_first()[0] == gs[1]);
            }
        }
    } else if lex_lt(rt, gs[0].0) {
        assert forall|i: int| 0 <= i < out.len() - 1 implies lex_lt(
            (#[trigger] out[i]).0,
            out[i + 1].0,
        ) by {
            if i > 0 {
                assert(out[i] == gs[i - 1]);
                assert(out[i + 1] == gs[i]);
            } else {
                assert(out[1] == gs[0]);
            }
        }
    } else {
        assert(lex_lt(gs[0].0, rt)) by {
            lemma_lex_le_total(rt, gs[0].0);
            if lex_le(rt, gs[0].0) {
                lemma_lex_le_antisymmetric(rt, gs[0].0);
            }
        }
        let rest = gs.drop_first();
        assert(groups_sorted(rest)) by {
            assert forall|i: int| 0 <= i < rest.len() - 1 implies lex_lt(
                (#[trigger] rest[i]).0,
                rest[i + 1].0,
            ) by {
                assert(rest[i] == gs[i + 1]);
                assert(rest[i + 1] == gs[i + 2]);
            }
        }
        lemma_add_entry_sorted(rest, r);
        let inner = add_entry(rest, r);
        lemma_add_entry_len(rest, r);
        assert forall|i: int| 0 <= i < out.len() - 1 implies lex_lt(
            (#[trigger] out[i]).0,
            out[i + 1].0,
        ) by {
            if i == 0 {
                assert(out[1] == inner[0]);
                if rest.len() == 0 {
                    assert(inner[0].0 == rt);
                } else if rest[0].0 == rt {
                    assert(inner[0].0 == rest[0].0);
                    assert(rest[0] == gs[1]);
                } else if lex_lt(rt, rest[0].0) {
                    assert(inner[0].0 == rt);
                } else {
                    assert(inner[0] == rest[0]);
                    assert(rest[0] == gs[1]);
                }
            } else {
                assert(out[i] == inner[i - 1]);
                assert(out[i + 1] == inner[i]);
            }
        }
    }
}

pub proof fn lemma_add_entry_len(gs: Seq<(Seq<char>, Seq<RecordV>)>, r: RecordV)
    ensures
        add_entry(gs, r).len() == gs.len() || add_entry(gs, r).len() == gs.len() + 1,
        add_entry(gs, r).len() >= 1,
    decreases gs.len(),
{
    if gs.len() != 0 && gs[0].0 != r.record_type && !lex_lt(r.record_type, gs[0].0) {
        lemma_add_entry_len(gs.drop_first(), r);
    }
}

/// Snapshot shape law: a loaded snapshot's groups are strictly sorted by
/// type name, so every record type appears exactly once.
pub proof fn lemma_load_sorted(entries: Seq<(Seq<char>, Seq<u8>)>)
    ensures
        forall|i: int|
            0 <= i < spec_load(entries).len() - 1 ==> lex_lt(
                (#[trigger] spec_load(entries)[i]).record_type,
                spec_load(entries)[i + 1].record_type,
            ),
{
    let rs = parsed_records(entries);
    assert(groups_sorted(group_entries(rs))) by {
        lemma_group_entries_sorted(rs);
    }
    assert forall|i: int|
        0 <= i < spec_load(entries).len() - 1 implies lex_lt(
        (#[trigger] spec_load(entries)[i]).record_type,
        spec_load(entries)[i + 1].record_type,
    ) by {
        assert(spec_load(entries)[i] == group_of_pair(group_entries(rs)[i]));
        assert(spec_load(entries)[i + 1] == group_of_pair(group_entries(rs)[i + 1]));
    }
}

proof fn lemma_group_entries_sorted(rs: Seq<RecordV>)
    ensures
        groups_sorted(group_entries(rs)),
    decreases rs.len(),
{
    if rs.len() != 0 {
        lemma_group_entries_sorted(rs.drop_last());
        lemma_add_entry_sorted(group_entries(rs.drop_last()), rs.last());
    }
}

} // verus!
