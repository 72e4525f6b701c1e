//! Rows filed under the value of their grouping column.

use vstd::prelude::*;

use crate::column::ColumnNumber;
use crate::layout::{
    append_str, joined, kept_fields, layout_text, row_text, rows_text, write_header,
};
use crate::records::{csv_records, field, field_count, read_records, record_fields};
use crate::order::{compare_keys, key_lt, lemma_key_lt_strict_total_order, KeyOrder};

verus! {

/// The fields of one row, each as its text.
pub type RowView = Seq<Seq<char>>;

/// A group: its name and its rows, in the order they were added.
pub type GroupView = (Seq<char>, Seq<RowView>);

/// One record of the input: its fields, in order.
///
/// The record is kept as the reader produced it, which holds all its fields
/// in one allocation, rather than copied field by field.
#[derive(Debug)]
pub struct Row {
    data: csv::StringRecord,
}

impl View for Row {
    type V = RowView;

    closed spec fn view(&self) -> RowView {
        record_fields(self.data)
    }
}

impl Row {
    /// A row holding the fields of `data`.
    pub fn new(data: csv::StringRecord) -> (r: Row)
        ensures
            r@ == record_fields(data),
    {
        Row { data }
    }

    /// Writes this row's line to `out`: its fields except the one at `skip`,
    /// separated by `", "`, and a newline.
    fn write_to(&self, out: &mut Vec<u8>, skip: usize)
        ensures
            final(out)@ == old(out)@ + row_text(self@, skip as nat),
    {
        let ghost start = out@;
        let ghost fields = self@;
        let ghost skipn = skip as nat;
        let mut first = true;
        let n = field_count(&self.data);
        let mut i: usize = 0;
        while i < n
            invariant
                i <= n,
                n == fields.len(),
                fields == self@,
                skipn == skip,
                out@ == start + joined(kept_fields(fields.take(i as int), skipn)),
                first <==> kept_fields(fields.take(i as int), skipn).len() == 0,
            decreases n - i,
        {
            let ghost prev = kept_fields(fields.take(i as int), skipn);
            assert(fields.take(i + 1).drop_last() == fields.take(i as int));
            assert(fields.take(i + 1).last() == fields[i as int]);
            if i != skip {
                let ghost next = prev.push(fields[i as int]);
                assert(kept_fields(fields.take(i + 1), skipn) == next);
                assert(next.drop_last() == prev);
                if !first {
                    out.push(0x2c);
                    out.push(0x20);
                } else {
                    assert(next == seq![fields[i as int]]);
                }
                first = false;
                match field(&self.data, i) {
                    Some(text) => append_str(out, text),
                    None => {},
                }
            }
            i = i + 1;
        }
        assert(fields.take(n as int) == fields);
        out.push(0x0a);
    }

    /// The record this row holds.
    pub fn record(&self) -> (r: &csv::StringRecord)
        ensures
            record_fields(*r) == self@,
    {
        &self.data
    }
}

/// The groups are strictly ascending by name, so no name occurs twice, and
/// none is empty.
pub open spec fn groups_wf(gs: Seq<GroupView>) -> bool {
    &&& forall|i: int, j: int| 0 <= i < j < gs.len() ==> key_lt(#[trigger] gs[i].0, #[trigger] gs[j].0)
    &&& forall|i: int| 0 <= i < gs.len() ==> #[trigger] gs[i].1.len() > 0
}

/// True when some group is named `k`.
pub open spec fn has_key(gs: Seq<GroupView>, k: Seq<char>) -> bool {
    exists|i: int| 0 <= i < gs.len() && #[trigger] gs[i].0 == k
}

/// A position of the group named `k`, when there is one.
pub open spec fn key_position(gs: Seq<GroupView>, k: Seq<char>) -> int {
    choose|i: int| 0 <= i < gs.len() && #[trigger] gs[i].0 == k
}

/// The rows of the group named `k`, or none when there is no such group.
pub open spec fn rows_of(gs: Seq<GroupView>, k: Seq<char>) -> Seq<RowView> {
    if has_key(gs, k) {
        gs[key_position(gs, k)].1
    } else {
        Seq::empty()
    }
}

/// In well-formed groups, the group at `i` is the one found by its name.
pub proof fn lemma_rows_of_at(gs: Seq<GroupView>, i: int)
    requires
        groups_wf(gs),
        0 <= i < gs.len(),
    ensures
        has_key(gs, gs[i].0),
        rows_of(gs, gs[i].0) == gs[i].1,
{
    let k = gs[i].0;
    assert(has_key(gs, k));
    let j = key_position(gs, k);
    if j != i {
        lemma_key_lt_strict_total_order(k, k, k);
        if j < i {
            assert(key_lt(gs[j].0, gs[i].0));
        } else {
            assert(key_lt(gs[i].0, gs[j].0));
        }
    }
}

/// Well-formed groups are determined by which names they hold and by the rows
/// under each name: the order of the groups follows from their names.
pub proof fn lemma_groups_determined(g1: Seq<GroupView>, g2: Seq<GroupView>)
    requires
        groups_wf(g1),
        groups_wf(g2),
        forall|k: Seq<char>| #[trigger] has_key(g1, k) == has_key(g2, k),
        forall|k: Seq<char>| #[trigger] rows_of(g1, k) == rows_of(g2, k),
    ensures
        g1 == g2,
    decreases g1.len(),
{
    if g1.len() == 0 {
        if g2.len() > 0 {
            assert(has_key(g2, g2[0].0));
            assert(!has_key(g1, g2[0].0));
        }
        assert(g1 =~= g2);
    } else if g2.len() == 0 {
        assert(has_key(g1, g1[0].0));
    } else {
        let n1 = g1.len() - 1;
        let n2 = g2.len() - 1;
        let k1 = g1[n1].0;
        let k2 = g2[n2].0;
        assert(has_key(g1, k1));
        assert(has_key(g2, k2));
        lemma_key_lt_strict_total_order(k1, k2, k1);
        if k1 != k2 {
            if key_lt(k1, k2) {
                assert(has_key(g1, k2));
                let i = key_position(g1, k2);
                if i < n1 {
                    assert(key_lt(g1[i].0, g1[n1].0));
                    lemma_key_lt_strict_total_order(k2, k1, k2);
                }
            } else {
                assert(has_key(g2, k1));
                let i = key_position(g2, k1);
                if i < n2 {
                    assert(key_lt(g2[i].0, g2[n2].0));
                    lemma_key_lt_strict_total_order(k1, k2, k1);
                }
            }
        }
        assert(k1 == k2);
        lemma_rows_of_at(g1, n1);
        lemma_rows_of_at(g2, n2);
        assert(g1[n1] == g2[n2]);
        let d1 = g1.drop_last();
        let d2 = g2.drop_last();
        assert(groups_wf(d1)) by {
            assert forall|i: int, j: int| 0 <= i < j < d1.len() implies key_lt(#[trigger] d1[i].0, #[trigger] d1[j].0) by {
                assert(key_lt(g1[i].0, g1[j].0));
            }
            assert forall|i: int| 0 <= i < d1.len() implies #[trigger] d1[i].1.len() > 0 by {
                assert(g1[i].1.len() > 0);
            }
        }
        assert(groups_wf(d2)) by {
            assert forall|i: int, j: int| 0 <= i < j < d2.len() implies key_lt(#[trigger] d2[i].0, #[trigger] d2[j].0) by {
                assert(key_lt(g2[i].0, g2[j].0));
            }
            assert forall|i: int| 0 <= i < d2.len() implies #[trigger] d2[i].1.len() > 0 by {
                assert(g2[i].1.len() > 0);
            }
        }
        assert forall|k: Seq<char>| #[trigger] has_key(d1, k) == (has_key(g1, k) && k != k1) by {
            if has_key(d1, k) {
                let i = key_position(d1, k);
                assert(g1[i].0 == k);
                assert(key_lt(g1[i].0, g1[n1].0));
                lemma_key_lt_strict_total_order(k, k, k);
            }
            if has_key(g1, k) && k != k1 {
                let i = key_position(g1, k);
                assert(d1[i].0 == k);
            }
        }
        assert forall|k: Seq<char>| #[trigger] has_key(d2, k) == (has_key(g2, k) && k != k2) by {
            if has_key(d2, k) {
                let i = key_position(d2, k);
                assert(g2[i].0 == k);
                assert(key_lt(g2[i].0, g2[n2].0));
                lemma_key_lt_strict_total_order(k, k, k);
            }
            if has_key(g2, k) && k != k2 {
                let i = key_position(g2, k);
                assert(d2[i].0 == k);
            }
        }
        assert forall|k: Seq<char>| #[trigger] has_key(d1, k) == has_key(d2, k) by {
            assert(has_key(d1, k) == (has_key(g1, k) && k != k1));
            assert(has_key(d2, k) == (has_key(g2, k) && k != k2));
        }
        assert forall|k: Seq<char>| #[trigger] rows_of(d1, k) == rows_of(d2, k) by {
            assert(has_key(d1, k) == (has_key(g1, k) && k != k1));
            assert(has_key(d2, k) == (has_key(g2, k) && k != k2));
            if has_key(d1, k) {
                let i = key_position(d1, k);
                lemma_rows_of_at(d1, i);
                assert(g1[i] == d1[i]);
                lemma_rows_of_at(g1, i);
                let j = key_position(d2, k);
                lemma_rows_of_at(d2, j);
                assert(g2[j] == d2[j]);
                lemma_rows_of_at(g2, j);
            }
        }
        lemma_groups_determined(d1, d2);
        assert(g1 =~= d1.push(g1[n1]));
        assert(g2 =~= d2.push(g2[n2]));
    }
}

/// Holds of a record whose field at `index` is `k`.
pub open spec fn key_matches(index: nat, k: Seq<char>) -> spec_fn(RowView) -> bool {
    |r: RowView| index < r.len() && r[index as int] == k
}

/// True when some record has no field at `index`.
pub open spec fn lacks_column(recs: Seq<RowView>, index: nat) -> bool {
    exists|i: int| 0 <= i < recs.len() && #[trigger] recs[i].len() <= index
}

/// True when some record has `k` at `index`.
pub open spec fn has_key_at(recs: Seq<RowView>, index: nat, k: Seq<char>) -> bool {
    exists|i: int| 0 <= i < recs.len() && #[trigger] key_matches(index, k)(recs[i])
}

/// Why CSV input could not be grouped.
#[derive(Debug)]
pub enum ProcessError {
    /// The field delimiter is not an ASCII character, so no single byte of
    /// the input can stand for it.
    UnsupportedDelimiter(char),
    /// The CSV reader stopped on malformed input.
    Csv(csv::Error),
}

/// Filing `r1` and then `r2` gives what filing `r1 + r2` at once gives: the
/// inputs of a run can be read one after another, as one stream.
pub proof fn lemma_added_records_compose(
    a: GroupedData,
    b: GroupedData,
    c: GroupedData,
    r1: Seq<RowView>,
    r2: Seq<RowView>,
)
    requires
        b.added_records(a, r1),
        c.added_records(b, r2),
    ensures
        c.added_records(a, r1 + r2),
{
    let index = a.column_index();
    assert(lacks_column(r1 + r2, index) == (lacks_column(r1, index) || lacks_column(r2, index))) by {
        if lacks_column(r1 + r2, index) {
            let j = choose|j: int| 0 <= j < (r1 + r2).len() && #[trigger] (r1 + r2)[j].len() <= index;
            if j < r1.len() {
                assert(r1[j] == (r1 + r2)[j]);
            } else {
                assert(r2[j - r1.len()] == (r1 + r2)[j]);
            }
        }
        if lacks_column(r1, index) {
            let j = choose|j: int| 0 <= j < r1.len() && #[trigger] r1[j].len() <= index;
            assert((r1 + r2)[j] == r1[j]);
        }
        if lacks_column(r2, index) {
            let j = choose|j: int| 0 <= j < r2.len() && #[trigger] r2[j].len() <= index;
            assert((r1 + r2)[r1.len() + j] == r2[j]);
        }
    }
    assert forall|k: Seq<char>| #![trigger has_key(c@, k)]
        has_key(c@, k) <==> (has_key(a@, k) || has_key_at(r1 + r2, index, k)) by {
        if has_key_at(r1 + r2, index, k) {
            let j = choose|j: int| 0 <= j < (r1 + r2).len() && #[trigger] key_matches(index, k)((r1 + r2)[j]);
            if j < r1.len() {
                assert(r1[j] == (r1 + r2)[j]);
                assert(has_key_at(r1, index, k));
            } else {
                assert(r2[j - r1.len()] == (r1 + r2)[j]);
                assert(has_key_at(r2, index, k));
            }
        }
        if has_key_at(r1, index, k) {
            let j = choose|j: int| 0 <= j < r1.len() && #[trigger] key_matches(index, k)(r1[j]);
            assert((r1 + r2)[j] == r1[j]);
        }
        if has_key_at(r2, index, k) {
            let j = choose|j: int| 0 <= j < r2.len() && #[trigger] key_matches(index, k)(r2[j]);
            assert((r1 + r2)[r1.len() + j] == r2[j]);
        }
        assert(has_key(b@, k) <==> (has_key(a@, k) || has_key_at(r1, index, k)));
    }
    assert forall|k: Seq<char>| #![trigger rows_of(c@, k)]
        rows_of(c@, k) == rows_of(a@, k) + (r1 + r2).filter(key_matches(index, k)) by {
        Seq::filter_distributes_over_add(r1, r2, key_matches(index, k));
        assert(rows_of(b@, k) == rows_of(a@, k) + r1.filter(key_matches(index, k)));
    }
}

/// Filing no records changes nothing.
pub proof fn lemma_added_no_records(after: GroupedData, before: GroupedData)
    requires
        groups_wf(before@),
        after.added_records(before, Seq::empty()),
    ensures
        after@ == before@,
        after.warned() == before.warned(),
        after.column_index() == before.column_index(),
{
    let index = before.column_index();
    reveal_with_fuel(Seq::filter, 1);
    assert forall|k: Seq<char>| #[trigger] has_key(after@, k) == has_key(before@, k) by {
        assert(has_key(after@, k) <==> (has_key(before@, k) || has_key_at(Seq::empty(), index, k)));
    }
    assert forall|k: Seq<char>| #[trigger] rows_of(after@, k) == rows_of(before@, k) by {
        assert(Seq::<RowView>::empty().filter(key_matches(index, k)) =~= Seq::<RowView>::empty());
        assert(rows_of(after@, k) == rows_of(before@, k) + Seq::<RowView>::empty().filter(key_matches(index, k)));
    }
    lemma_groups_determined(after@, before@);
}

/// Records filed into no groups: each group holds exactly the records whose
/// grouping field is its name, in input order, and every record that has the
/// grouping column is in the group of that field's value; there is one group
/// per value, so rows sharing a value are together however far apart they
/// stood in the input.
pub proof fn lemma_grouped_from_empty(after: GroupedData, before: GroupedData, recs: Seq<RowView>)
    requires
        before@.len() == 0,
        after.added_records(before, recs),
    ensures
        forall|i: int|
            0 <= i < after@.len() ==> #[trigger] after@[i].1 == recs.filter(
                key_matches(before.column_index(), after@[i].0),
            ),
        forall|i: int| 0 <= i < after@.len() ==> has_key_at(recs, before.column_index(), #[trigger] after@[i].0),
        forall|j: int|
            0 <= j < recs.len() && before.column_index() < recs[j].len() ==> has_key(
                after@,
                #[trigger] recs[j][before.column_index() as int],
            ),
        forall|i: int, j: int| 0 <= i < j < after@.len() ==> #[trigger] after@[i].0 != #[trigger] after@[j].0,
{
    let index = before.column_index();
    assert forall|k: Seq<char>| !has_key(before@, k) by {}
    assert forall|k: Seq<char>| #[trigger] rows_of(before@, k) == Seq::<RowView>::empty() by {}
    assert forall|i: int| 0 <= i < after@.len() implies #[trigger] after@[i].1 == recs.filter(
        key_matches(index, after@[i].0),
    ) by {
        lemma_rows_of_at(after@, i);
        assert(rows_of(after@, after@[i].0) == rows_of(before@, after@[i].0) + recs.filter(key_matches(index, after@[i].0)));
        assert(Seq::<RowView>::empty() + recs.filter(key_matches(index, after@[i].0)) == recs.filter(key_matches(index, after@[i].0)));
    }
    assert forall|i: int| 0 <= i < after@.len() implies has_key_at(recs, index, #[trigger] after@[i].0) by {
        assert(has_key(after@, after@[i].0));
    }
    assert forall|j: int| 0 <= j < recs.len() && index < recs[j].len() implies has_key(
        after@,
        #[trigger] recs[j][index as int],
    ) by {
        assert(key_matches(index, recs[j][index as int])(recs[j]));
        assert(has_key_at(recs, index, recs[j][index as int]));
    }
    assert forall|i: int, j: int| 0 <= i < j < after@.len() implies #[trigger] after@[i].0 != #[trigger] after@[j].0 by {
        assert(key_lt(after@[i].0, after@[j].0));
        lemma_key_lt_strict_total_order(after@[i].0, after@[i].0, after@[i].0);
    }
}

/// CSV records filed by the value of one column.
#[derive(Debug)]
pub struct GroupedData {
    groups: Vec<(String, Vec<Row>)>,
    /// 0-based index of the grouping column.
    index: usize,
    warned_missing_column: bool,
}

/// The view of one stored group.
pub open spec fn group_view(g: (String, Vec<Row>)) -> GroupView {
    (g.0@, g.1@.map_values(|r: Row| r@))
}

impl View for GroupedData {
    type V = Seq<GroupView>;

    closed spec fn view(&self) -> Seq<GroupView> {
        self.groups@.map_values(|g: (String, Vec<Row>)| group_view(g))
    }
}

impl GroupedData {
    #[verifier::type_invariant]
    spec fn inv(self) -> bool {
        groups_wf(self@)
    }

    /// The 0-based index of the grouping column.
    pub closed spec fn column_index(self) -> nat {
        self.index as nat
    }

    /// True once a record without the grouping column has been skipped.
    pub closed spec fn warned(self) -> bool {
        self.warned_missing_column
    }

    /// No groups yet, grouping by `column_number`.
    pub fn new(column_number: ColumnNumber) -> (r: GroupedData)
        ensures
            r@ == Seq::<GroupView>::empty(),
            r.column_index() + 1 == column_number.value(),
            !r.warned(),
    {
        let r = GroupedData {
            groups: Vec::new(),
            index: column_number.index(),
            warned_missing_column: false,
        };
        assert(r@ =~= Seq::<GroupView>::empty());
        r
    }

    /// Files `row` under `group_name`, after the rows already there; a new
    /// name gets a group of its own, in its place in the order.
    pub fn add(&mut self, group_name: String, row: Row)
        ensures
            groups_wf(final(self)@),
            final(self).column_index() == old(self).column_index(),
            final(self).warned() == old(self).warned(),
            forall|k: Seq<char>|
                #![trigger has_key(final(self)@, k)]
                has_key(final(self)@, k) <==> (has_key(old(self)@, k) || k == group_name@),
            forall|k: Seq<char>|
                #![trigger rows_of(final(self)@, k)]
                rows_of(final(self)@, k) == if k == group_name@ {
                    rows_of(old(self)@, k).push(row@)
                } else {
                    rows_of(old(self)@, k)
                },
    {
        proof {
            use_type_invariant(&*self);
        }
        let ghost gs0 = self@;
        let ghost key = group_name@;
        let ghost new_row = row@;
        let mut groups: Vec<(String, Vec<Row>)> = Vec::new();
        std::mem::swap(&mut groups, &mut self.groups);
        assert(groups@.map_values(|g: (String, Vec<Row>)| group_view(g)) == gs0);
        let (pos, found) = find_position(&groups, &group_name);
        let ghost p = pos as int;
        let ghost groups0 = groups@;
        if found {
            let (name, mut rows) = groups.remove(pos);
            let ghost rows0 = rows@;
            rows.push(row);
            assert(rows@.map_values(|r: Row| r@) =~= rows0.map_values(|r: Row| r@).push(new_row));
            let ghost newg = (name, rows);
            groups.insert(pos, (name, rows));
            assert(groups@ =~= groups0.update(p, newg));
            let ghost gs1 = groups@.map_values(|g: (String, Vec<Row>)| group_view(g));
            proof {
                assert(gs1 =~= gs0.update(p, (key, gs0[p].1.push(new_row))));
                assert forall|i: int, j: int| 0 <= i < j < gs1.len() implies key_lt(
                    #[trigger] gs1[i].0,
                    #[trigger] gs1[j].0,
                ) by {
                    assert(key_lt(gs0[i].0, gs0[j].0));
                }
                assert forall|i: int| 0 <= i < gs1.len() implies #[trigger] gs1[i].1.len() > 0 by {
                    assert(gs0[i].1.len() > 0);
                }
                assert forall|k: Seq<char>| has_key(gs1, k) <==> (has_key(gs0, k) || k == key) by {
                    if has_key(gs1, k) {
                        let i = key_position(gs1, k);
                        assert(gs0[i].0 == k);
                    }
                    if has_key(gs0, k) {
                        let i = key_position(gs0, k);
                        assert(gs1[i].0 == k);
                    }
                    if k == key {
                        assert(gs1[p].0 == k);
                    }
                }
                assert forall|k: Seq<char>|
                    rows_of(gs1, k) == if k == key {
                        rows_of(gs0, k).push(new_row)
                    } else {
                        rows_of(gs0, k)
                    } by {
                    if k == key {
                        lemma_rows_of_at(gs1, p);
                        lemma_rows_of_at(gs0, p);
                    } else if has_key(gs0, k) {
                        let i = key_position(gs0, k);
                        lemma_rows_of_at(gs0, i);
                        assert(gs1[i] == gs0[i]);
                        lemma_rows_of_at(gs1, i);
                    } else {
                        if has_key(gs1, k) {
                            let i = key_position(gs1, k);
                            assert(gs0[i].0 == k);
                        }
                    }
                }
            }
        } else {
            let mut rows: Vec<Row> = Vec::new();
            rows.push(row);
            assert(rows@.map_values(|r: Row| r@) =~= seq![new_row]);
            let ghost newg = (group_name, rows);
            groups.insert(pos, (group_name, rows));
            assert(groups@ =~= groups0.insert(p, newg));
            let ghost gs1 = groups@.map_values(|g: (String, Vec<Row>)| group_view(g));
            proof {
                assert(gs1 =~= gs0.insert(p, (key, seq![new_row])));
                assert forall|i: int| p <= i < gs0.len() implies key_lt(key, #[trigger] gs0[i].0) by {
                    lemma_key_lt_strict_total_order(gs0[p].0, gs0[i].0, key);
                    lemma_key_lt_strict_total_order(gs0[i].0, key, gs0[i].0);
                    if i > p {
                        assert(key_lt(gs0[p].0, gs0[i].0));
                    }
                }
                assert forall|i: int, j: int| 0 <= i < j < gs1.len() implies key_lt(
                    #[trigger] gs1[i].0,
                    #[trigger] gs1[j].0,
                ) by {
                    if j < p {
                        assert(key_lt(gs0[i].0, gs0[j].0));
                    } else if j == p {
                        assert(key_lt(gs0[i].0, key));
                    } else if i == p {
                        assert(key_lt(key, gs0[j - 1].0));
                    } else if i < p {
                        assert(key_lt(gs0[i].0, gs0[j - 1].0));
                    } else {
                        assert(key_lt(gs0[i - 1].0, gs0[j - 1].0));
                    }
                }
                assert forall|i: int| 0 <= i < gs1.len() implies #[trigger] gs1[i].1.len() > 0 by {
                    if i < p {
                        assert(gs0[i].1.len() > 0);
                    } else if i > p {
                        assert(gs0[i - 1].1.len() > 0);
                    }
                }
                assert forall|k: Seq<char>| has_key(gs1, k) <==> (has_key(gs0, k) || k == key) by {
                    if has_key(gs1, k) {
                        let i = key_position(gs1, k);
                        if i < p {
                            assert(gs0[i].0 == k);
                        } else if i > p {
                            assert(gs0[i - 1].0 == k);
                        }
                    }
                    if has_key(gs0, k) {
                        let i = key_position(gs0, k);
                        if i < p {
                            assert(gs1[i].0 == k);
                        } else {
                            assert(gs1[i + 1].0 == k);
                        }
                    }
                    if k == key {
                        assert(gs1[p].0 == k);
                    }
                }
                assert forall|k: Seq<char>|
                    rows_of(gs1, k) == if k == key {
                        rows_of(gs0, k).push(new_row)
                    } else {
                        rows_of(gs0, k)
                    } by {
                    if k == key {
                        lemma_rows_of_at(gs1, p);
                        if has_key(gs0, k) {
                            let i = key_position(gs0, k);
                            if i < p {
                                assert(key_lt(gs0[i].0, key));
                            }
                            lemma_key_lt_strict_total_order(key, key, key);
                        }
                        assert(rows_of(gs0, k) == Seq::<RowView>::empty());
                        assert(seq![new_row] =~= Seq::<RowView>::empty().push(new_row));
                    } else if has_key(gs0, k) {
                        let i = key_position(gs0, k);
                        lemma_rows_of_at(gs0, i);
                        if i < p {
                            assert(gs1[i] == gs0[i]);
                            lemma_rows_of_at(gs1, i);
                        } else {
                            assert(gs1[i + 1] == gs0[i]);
                            lemma_rows_of_at(gs1, i + 1);
                        }
                    } else {
                        if has_key(gs1, k) {
                            let i = key_position(gs1, k);
                            if i < p {
                                assert(gs0[i].0 == k);
                            } else if i > p {
                                assert(gs0[i - 1].0 == k);
                            }
                        }
                    }
                }
            }
        }
        self.groups = groups;
    }

    /// `self` is `before` with the records `recs` filed: each record that has
    /// the grouping column goes, in order, after the rows already under its
    /// value there; a record without it is skipped and noted.
    pub open spec fn added_records(self, before: GroupedData, recs: Seq<RowView>) -> bool {
        let index = before.column_index();
        &&& groups_wf(self@)
        &&& self.column_index() == index
        &&& self.warned() == (before.warned() || lacks_column(recs, index))
        &&& forall|k: Seq<char>|
            #![trigger has_key(self@, k)]
            has_key(self@, k) <==> (has_key(before@, k) || has_key_at(recs, index, k))
        &&& forall|k: Seq<char>|
            #![trigger rows_of(self@, k)]
            rows_of(self@, k) == rows_of(before@, k) + recs.filter(key_matches(index, k))
    }

    /// Files every record of `records`, in order, under the value of its
    /// grouping column; a record too short to have that column is skipped,
    /// and the skip is noted.
    pub fn add_records(&mut self, records: Vec<csv::StringRecord>)
        ensures
            final(self).added_records(
                *old(self),
                records@.map_values(|record: csv::StringRecord| record_fields(record)),
            ),
    {
        proof {
            use_type_invariant(&*self);
        }
        let ghost recs = records@.map_values(|record: csv::StringRecord| record_fields(record));
        let ghost index = self.column_index();
        let idx = self.index;
        proof {
            assert(recs.take(0) =~= Seq::<RowView>::empty());
            reveal_with_fuel(Seq::filter, 1);
        }
        for record in it: records
            invariant
                idx == index,
                index == old(self).column_index(),
                it.seq().map_values(|record: csv::StringRecord| record_fields(record)) == recs,
                self.added_records(*old(self), recs.take(it.index())),
        {
            let ghost i = it.index();
            let ghost rec = record_fields(record);
            assert(rec == recs[i]);
            assert(recs.take(i + 1).drop_last() == recs.take(i));
            assert(recs.take(i + 1).last() == rec);
            if let Some(text) = field(&record, idx) {
                let key = text.to_owned();
                let ghost keyv = key@;
                assert(keyv == rec[index as int]);
                self.add(key, Row::new(record));
                proof {
                    reveal_with_fuel(Seq::filter, 1);
                    assert forall|k: Seq<char>| #![trigger has_key(self@, k)]
                        has_key(self@, k) <==> (has_key(old(self)@, k) || has_key_at(recs.take(i + 1), index, k)) by {
                        if k == keyv {
                            assert(key_matches(index, k)(recs.take(i + 1)[i]));
                        }
                        if has_key_at(recs.take(i + 1), index, k) && !has_key_at(recs.take(i), index, k) {
                            let j = choose|j: int| 0 <= j < recs.take(i + 1).len() && #[trigger] key_matches(index, k)(recs.take(i + 1)[j]);
                            if j < i {
                                assert(recs.take(i)[j] == recs.take(i + 1)[j]);
                            }
                        }
                        if has_key_at(recs.take(i), index, k) {
                            let j = choose|j: int| 0 <= j < recs.take(i).len() && #[trigger] key_matches(index, k)(recs.take(i)[j]);
                            assert(recs.take(i + 1)[j] == recs.take(i)[j]);
                        }
                    }
                    assert forall|k: Seq<char>| #![trigger rows_of(self@, k)]
                        rows_of(self@, k) == rows_of(old(self)@, k) + recs.take(i + 1).filter(key_matches(index, k)) by {
                        assert(recs.take(i + 1).filter(key_matches(index, k)) == recs.take(i).filter(key_matches(index, k)) + if key_matches(index, k)(rec) { seq![rec] } else { Seq::<RowView>::empty() });
                    }
                    assert(lacks_column(recs.take(i + 1), index) == lacks_column(recs.take(i), index)) by {
                        if lacks_column(recs.take(i), index) {
                            let j = choose|j: int| 0 <= j < recs.take(i).len() && #[trigger] recs.take(i)[j].len() <= index;
                            assert(recs.take(i + 1)[j] == recs.take(i)[j]);
                        }
                    }
                }
            } else {
                self.warned_missing_column = true;
                proof {
                    reveal_with_fuel(Seq::filter, 1);
                    assert(recs.take(i + 1)[i].len() <= index);
                    assert forall|k: Seq<char>| #![trigger has_key(self@, k)]
                        has_key(self@, k) <==> (has_key(old(self)@, k) || has_key_at(recs.take(i + 1), index, k)) by {
                        if has_key_at(recs.take(i + 1), index, k) {
                            let j = choose|j: int| 0 <= j < recs.take(i + 1).len() && #[trigger] key_matches(index, k)(recs.take(i + 1)[j]);
                            assert(recs.take(i)[j] == recs.take(i + 1)[j]);
                        }
                        if has_key_at(recs.take(i), index, k) {
                            let j = choose|j: int| 0 <= j < recs.take(i).len() && #[trigger] key_matches(index, k)(recs.take(i)[j]);
                            assert(recs.take(i + 1)[j] == recs.take(i)[j]);
                        }
                    }
                    assert forall|k: Seq<char>| #![trigger rows_of(self@, k)]
                        rows_of(self@, k) == rows_of(old(self)@, k) + recs.take(i + 1).filter(key_matches(index, k)) by {
                        assert(recs.take(i + 1).filter(key_matches(index, k)) == recs.take(i).filter(key_matches(index, k)));
                    }
                }
            }
        }
        proof {
            assert(recs.take(recs.len() as int) == recs);
        }
    }

    /// Reads the CSV data `input` and files its records. The first record is
    /// a header row unless `no_headers` is set; fields are separated by
    /// `delimiter`. The records read before a parse error are filed before
    /// the error is returned.
    pub fn process(&mut self, input: &[u8], no_headers: bool, delimiter: char) -> (r: Result<
        (),
        ProcessError,
    >)
        ensures
            (delimiter as u32) >= 128 ==> {
                &&& *final(self) == *old(self)
                &&& r matches Err(ProcessError::UnsupportedDelimiter(c)) && c == delimiter
            },
            (delimiter as u32) < 128 ==> {
                let read = csv_records(input@, delimiter as u8, !no_headers);
                &&& final(self).added_records(*old(self), read.0)
                &&& (r is Ok <==> !read.1)
                &&& (r matches Err(e) ==> e is Csv)
            },
    {
        if (delimiter as u32) >= 128 {
            return Err(ProcessError::UnsupportedDelimiter(delimiter));
        }
        let (records, error) = read_records(input, delimiter as u8, !no_headers);
        self.add_records(records);
        match error {
            Some(err) => Err(ProcessError::Csv(err)),
            None => Ok(()),
        }
    }

    /// Writes one line per row of `rows` to `out`, without the grouping
    /// column.
    pub fn write_rows(&self, rows: &[Row], out: &mut Vec<u8>)
        ensures
            final(out)@ == old(out)@ + rows_text(rows@.map_values(|r: Row| r@), self.column_index()),
    {
        let ghost start = out@;
        let ghost views = rows@.map_values(|r: Row| r@);
        let mut i: usize = 0;
        while i < rows.len()
            invariant
                i <= rows@.len(),
                views == rows@.map_values(|r: Row| r@),
                out@ == start + rows_text(views.take(i as int), self.column_index()),
            decreases rows@.len() - i,
        {
            assert(views.take(i + 1).drop_last() == views.take(i as int));
            assert(views.take(i + 1).last() == rows@[i as int]@);
            rows[i].write_to(out, self.index);
            i = i + 1;
        }
        assert(views.take(rows@.len() as int) == views);
    }

    /// Writes the grouped layout of every group, in order, to `out`.
    pub fn write_to(&self, out: &mut Vec<u8>)
        ensures
            final(out)@ == old(out)@ + layout_text(self@, self.column_index()),
    {
        let ghost start = out@;
        let ghost gs = self@;
        let mut i: usize = 0;
        while i < self.groups.len()
            invariant
                i <= self.groups@.len(),
                gs == self@,
                gs == self.groups@.map_values(|g: (String, Vec<Row>)| group_view(g)),
                out@ == start + layout_text(gs.take(i as int), self.column_index()),
            decreases self.groups@.len() - i,
        {
            assert(gs.take(i + 1).drop_last() == gs.take(i as int));
            assert(gs.take(i + 1).last() == gs[i as int]);
            let group = &self.groups[i];
            write_header(out, group.0.as_str());
            self.write_rows(group.1.as_slice(), out);
            out.push(0x0a);
            i = i + 1;
        }
        assert(gs.take(self.groups@.len() as int) == gs);
    }

    /// True once a record without the grouping column has been skipped.
    pub fn warned_missing_column(&self) -> (r: bool)
        ensures
            r == self.warned(),
    {
        self.warned_missing_column
    }

    /// The groups in ascending order of the UTF-8 bytes of their names.
    pub fn groups(&self) -> (r: &[(String, Vec<Row>)])
        ensures
            r@.map_values(|g: (String, Vec<Row>)| group_view(g)) == self@,
            groups_wf(self@),
    {
        proof {
            use_type_invariant(self);
        }
        self.groups.as_slice()
    }
}

/// Where `key` belongs among the sorted group names of `groups`: the first
/// position whose name does not come before `key`, and whether that name is
/// `key` itself.
fn find_position(groups: &Vec<(String, Vec<Row>)>, key: &String) -> (r: (usize, bool))
    requires
        groups_wf(groups@.map_values(|g: (String, Vec<Row>)| group_view(g))),
    ensures
        r.0 <= groups@.len(),
        forall|i: int| 0 <= i < r.0 ==> key_lt(#[trigger] groups@[i].0@, key@),
        forall|i: int| r.0 <= i < groups@.len() ==> !key_lt(#[trigger] groups@[i].0@, key@),
        r.1 <==> (r.0 < groups@.len() && groups@[r.0 as int].0@ == key@),
{
    let ghost gs = groups@.map_values(|g: (String, Vec<Row>)| group_view(g));
    let mut lo: usize = 0;
    let mut hi: usize = groups.len();
    while lo < hi
        invariant
            lo <= hi <= groups@.len(),
            gs == groups@.map_values(|g: (String, Vec<Row>)| group_view(g)),
            groups_wf(gs),
            forall|i: int| 0 <= i < lo ==> key_lt(#[trigger] groups@[i].0@, key@),
            forall|i: int| hi <= i < groups@.len() ==> !key_lt(#[trigger] groups@[i].0@, key@),
        decreases hi - lo,
    {
        let mid = lo + (hi - lo) / 2;
        let order = compare_keys(groups[mid].0.as_str(), key.as_str());
        if order == KeyOrder::Less {
            assert forall|i: int| 0 <= i < mid + 1 implies key_lt(#[trigger] groups@[i].0@, key@) by {
                if i < mid {
                    assert(key_lt(gs[i].0, gs[mid as int].0));
                    lemma_key_lt_strict_total_order(groups@[i].0@, groups@[mid as int].0@, key@);
                }
            }
            lo = mid + 1;
        } else {
            assert forall|i: int| mid <= i < groups@.len() implies !key_lt(#[trigger] groups@[i].0@, key@) by {
                if i > mid {
                    assert(key_lt(gs[mid as int].0, gs[i].0));
                    lemma_key_lt_strict_total_order(groups@[mid as int].0@, groups@[i].0@, key@);
                }
            }
            hi = mid;
        }
    }
    if lo < groups.len() {
        let order = compare_keys(groups[lo].0.as_str(), key.as_str());
        (lo, order == KeyOrder::Equal)
    } else {
        (lo, false)
    }
}

} // verus!
