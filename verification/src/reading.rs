//! What a fit reads of a relation, as the identity of the fitted model covers it: the
//! columns that the request names and the rows in which none of them is absent.
use crate::data::{gather_all, DataView, KeyColumn, Members, NumericColumn};
use crate::double::Double;
use crate::errors::{BayesResult, Fault};
use crate::panel::PanelView;
use crate::text::push_text;
use vstd::prelude::*;

verus! {

/// The columns that a fit reads, with their entries at the rows that it reads.
#[derive(Debug)]
pub struct Reading {
    /// The names of the number columns.
    pub numeric: Vec<String>,
    /// Their values, column by column.
    pub numbers: Vec<Vec<Double>>,
    /// The names of the key columns.
    pub keys: Vec<String>,
    /// Their values, column by column.
    pub labels: Vec<Vec<String>>,
    /// The rows, in the order of the relation.
    pub rows: Vec<usize>,
}

/// What a [`Reading`] holds.
#[verifier::ext_equal]
pub struct Entries {
    pub numeric: Seq<Seq<char>>,
    pub numbers: Seq<Seq<Double>>,
    pub keys: Seq<Seq<char>>,
    pub labels: Seq<Seq<Seq<char>>>,
    pub rows: Seq<usize>,
}

/// The texts that a sequence of lists holds.
pub open spec fn label_lists(s: Seq<Vec<String>>) -> Seq<Seq<Seq<char>>> {
    Seq::new(s.len(), |i: int| crate::text::texts(s[i]@))
}

impl View for Reading {
    type V = Entries;

    open spec fn view(&self) -> Entries {
        Entries {
            numeric: crate::text::texts(self.numeric@),
            numbers: crate::data::lists(self.numbers@),
            keys: crate::text::texts(self.keys@),
            labels: label_lists(self.labels@),
            rows: self.rows@,
        }
    }
}

/// The labels of a column at several rows.
pub open spec fn labelled(column: KeyColumn, rows: Seq<usize>) -> Seq<Seq<char>> {
    Seq::new(rows.len(), |i: int| crate::data::label(column, rows[i]))
}

impl Entries {
    /// The entries of the named columns at several rows.
    pub open spec fn at(
        data: DataView,
        numeric: Seq<Seq<char>>,
        keys: Seq<Seq<char>>,
        rows: Seq<usize>,
    ) -> Entries {
        Entries {
            numeric,
            numbers: Seq::new(
                numeric.len(),
                |c: int| crate::data::gathered(data.column(numeric[c])->0, rows),
            ),
            keys,
            labels: Seq::new(keys.len(), |c: int| labelled(data.key_column(keys[c])->0, rows)),
            rows,
        }
    }

    /// Whether two relations were read alike: the same columns with the same entries in
    /// the same order, whatever numbers their rows had.
    pub open spec fn same_entries(self, other: Entries) -> bool {
        &&& self.numeric == other.numeric
        &&& self.numbers == other.numbers
        &&& self.keys == other.keys
        &&& self.labels == other.labels
        &&& self.rows.len() == other.rows.len()
    }
}

/// What a fit that names these columns reads, or the fault of a column that is not there.
pub open spec fn reading_of(
    data: DataView,
    numeric: Seq<Seq<char>>,
    keys: Seq<Seq<char>>,
) -> Result<Entries, Fault> {
    match data.usable(numeric, keys) {
        Err(f) => Err(f),
        Ok(rows) => Ok(Entries::at(data, numeric, keys, rows)),
    }
}

fn gather_labels(column: &KeyColumn, rows: &Vec<usize>) -> (r: Vec<String>)
    requires
        crate::data::rows_within(rows@, column.values@.len() as int),
    ensures
        crate::text::texts(r@) == labelled(*column, rows@),
{
    let mut out: Vec<String> = Vec::new();
    let mut k: usize = 0;
    proof {
        assert(crate::text::texts(out@) =~= labelled(*column, rows@).take(0));
    }
    while k < rows.len()
        invariant
            k <= rows@.len(),
            crate::data::rows_within(rows@, column.values@.len() as int),
            crate::text::texts(out@) == labelled(*column, rows@).take(k as int),
        decreases rows@.len() - k,
    {
        push_text(&mut out, column.values[rows[k]].as_str());
        k += 1;
        proof {
            assert(crate::text::texts(out@) =~= labelled(*column, rows@).take(k as int));
        }
    }
    proof {
        assert(labelled(*column, rows@).take(k as int) =~= labelled(*column, rows@));
    }
    out
}

/// Reads the named columns at the rows in which none of them is absent.
pub fn read_columns(data: &DataView, numeric: Vec<String>, group: &Option<String>) -> (r:
    BayesResult<Reading>)
    requires
        data.wf(),
    ensures
        crate::errors::outcome(r) == reading_of(
            *data,
            crate::text::texts(numeric@),
            crate::panel::group_columns(crate::data::name_of(*group)),
        ),
{
    let mut keys: Vec<String> = Vec::new();
    proof {
        assert(crate::text::texts(keys@) =~= Seq::<Seq<char>>::empty());
    }
    if let Some(name) = group {
        push_text(&mut keys, name.as_str());
    }
    let ghost names = crate::panel::group_columns(crate::data::name_of(*group));
    proof {
        assert(crate::text::texts(keys@) =~= names);
    }
    let rows = data.usable_rows(&numeric, &keys)?;
    let columns = data.numerics(&numeric)?;
    let numbers = gather_all(&columns, &rows, data.n_rows);
    let mut labels: Vec<Vec<String>> = Vec::new();
    if let Some(name) = group {
        proof {
            assert(keys@[0]@ == names[0]);
        }
        let column = data.key(name.as_str())?;
        labels.push(gather_labels(column, &rows));
    }
    let reading = Reading { numeric, numbers, keys, labels, rows };
    proof {
        let wanted = Entries::at(*data, crate::text::texts(numeric@), names, rows@);
        assert(reading@.numbers =~= wanted.numbers) by {
            assert forall|c: int| 0 <= c < numeric@.len() implies reading@.numbers[c]
                == #[trigger] wanted.numbers[c] by {
                assert(data.column(numeric@[c]@) == Some(*columns@[c]));
            }
        }
        assert(reading@.labels =~= wanted.labels);
        assert(reading@ =~= wanted);
    }
    Ok(reading)
}

/// Whether a reading holds the named columns at the complete rows, each entry from its own
/// column and its own row, in the order of the relation.
pub open spec fn holds_the_columns(
    data: DataView,
    numeric: Seq<Seq<char>>,
    keys: Seq<Seq<char>>,
    reading: Reading,
) -> bool {
    let rows = reading.rows@;
    &&& crate::panel::each_present_row_once(data, numeric, keys, rows)
    &&& forall|i: int, j: int|
        0 <= i < j < rows.len() ==> (#[trigger] rows[i]) < (#[trigger] rows[j])
    &&& reading.numeric@.len() == numeric.len()
    &&& reading.numbers@.len() == numeric.len()
    &&& reading.keys@.len() == keys.len()
    &&& reading.labels@.len() == keys.len()
    &&& forall|c: int| 0 <= c < numeric.len() ==> (#[trigger] reading.numeric@[c])@ == numeric[c]
    &&& forall|c: int| 0 <= c < keys.len() ==> (#[trigger] reading.keys@[c])@ == keys[c]
    &&& forall|c: int|
        0 <= c < numeric.len() ==> (#[trigger] reading.numbers@[c])@ == Seq::new(
            rows.len(),
            |i: int| data.column(numeric[c])->0.values@[rows[i] as int],
        )
    &&& forall|c: int|
        0 <= c < keys.len() ==> (#[trigger] reading.labels@[c])@.len() == rows.len()
    &&& forall|c: int, i: int|
        0 <= c < keys.len() && 0 <= i < rows.len() ==> (#[trigger] reading.labels@[c]@[i])@
            == data.key_column(keys[c])->0.values@[rows[i] as int]@
}

/// What is read of a relation are the named columns, whole, at every complete row: nothing is
/// left out of it and nothing else is in it.
pub proof fn a_reading_holds_the_named_columns(
    data: DataView,
    numeric: Seq<Seq<char>>,
    keys: Seq<Seq<char>>,
    reading: Reading,
)
    requires
        reading_of(data, numeric, keys) == Ok::<Entries, Fault>(reading@),
    ensures
        holds_the_columns(data, numeric, keys, reading),
{
    crate::panel::the_rows_read_are_the_complete_ones(data, numeric, keys);
    let rows = reading.rows@;
    assert(reading@ == Entries::at(data, numeric, keys, rows));
    assert(reading@.numeric.len() == reading.numeric@.len());
    assert(reading@.numbers.len() == reading.numbers@.len());
    assert(reading@.keys.len() == reading.keys@.len());
    assert(reading@.labels.len() == reading.labels@.len());
    assert forall|c: int| 0 <= c < numeric.len() implies (#[trigger] reading.numeric@[c])@
        == numeric[c] by {
        assert(reading@.numeric[c] == reading.numeric@[c]@);
    }
    assert forall|c: int| 0 <= c < keys.len() implies (#[trigger] reading.keys@[c])@ == keys[c] by {
        assert(reading@.keys[c] == reading.keys@[c]@);
    }
    assert forall|c: int| 0 <= c < numeric.len() implies (#[trigger] reading.numbers@[c])@
        == Seq::new(
        rows.len(),
        |i: int| data.column(numeric[c])->0.values@[rows[i] as int],
    ) by {
        assert(reading@.numbers[c] == reading.numbers@[c]@);
        assert(reading.numbers@[c]@ =~= Seq::new(
            rows.len(),
            |i: int| data.column(numeric[c])->0.values@[rows[i] as int],
        ));
    }
    assert forall|c: int| 0 <= c < keys.len() implies crate::text::texts(
        (#[trigger] reading.labels@[c])@,
    ) == labelled(data.key_column(keys[c])->0, rows) by {
        assert(reading@.labels[c] == crate::text::texts(reading.labels@[c]@));
    }
    assert forall|c: int| 0 <= c < keys.len() implies (#[trigger] reading.labels@[c])@.len()
        == rows.len() by {
        assert(crate::text::texts(reading.labels@[c]@).len() == reading.labels@[c]@.len());
    }
    assert forall|c: int, i: int| 0 <= c < keys.len() && 0 <= i < rows.len() implies (
    #[trigger] reading.labels@[c]@[i])@ == data.key_column(keys[c])->0.values@[rows[i] as int]@ by {
        assert(crate::text::texts(reading.labels@[c]@)[i] == reading.labels@[c]@[i]@);
    }
}

/// Whether two lists of rows carry the same labels, one for one.
pub open spec fn same_labels(
    x: KeyColumn,
    rows: Seq<usize>,
    y: KeyColumn,
    others: Seq<usize>,
) -> bool {
    labelled(x, rows) == labelled(y, others)
}

proof fn lemma_same_keys(x: KeyColumn, rows: Seq<usize>, y: KeyColumn, others: Seq<usize>)
    requires
        same_labels(x, rows, y, others),
    ensures
        crate::data::distinct(x, rows) == crate::data::distinct(y, others),
    decreases rows.len(),
{
    assert(labelled(x, rows).len() == labelled(y, others).len());
    if rows.len() > 0 {
        let n = rows.len() - 1;
        lemma_shorter(x, rows, y, others);
        lemma_same_keys(x, rows.drop_last(), y, others.drop_last());
        assert(labelled(x, rows)[n] == labelled(y, others)[n]);
    }
}

proof fn lemma_shorter(x: KeyColumn, rows: Seq<usize>, y: KeyColumn, others: Seq<usize>)
    requires
        same_labels(x, rows, y, others),
        rows.len() > 0,
    ensures
        same_labels(x, rows.drop_last(), y, others.drop_last()),
{
    assert(labelled(x, rows).len() == labelled(y, others).len());
    assert(labelled(x, rows.drop_last()) =~= labelled(x, rows).drop_last());
    assert(labelled(y, others.drop_last()) =~= labelled(y, others).drop_last());
}

/// The rows of a key hold the same values where all rows do.
proof fn lemma_same_members(
    x: KeyColumn,
    p: NumericColumn,
    rows: Seq<usize>,
    y: KeyColumn,
    q: NumericColumn,
    others: Seq<usize>,
    key: Seq<char>,
)
    requires
        same_labels(x, rows, y, others),
        crate::data::gathered(p, rows) == crate::data::gathered(q, others),
    ensures
        crate::data::gathered(p, crate::data::members(x, rows, key)) == crate::data::gathered(
            q,
            crate::data::members(y, others, key),
        ),
    decreases rows.len(),
{
    assert(labelled(x, rows).len() == labelled(y, others).len());
    let mine = crate::data::members(x, rows, key);
    let theirs = crate::data::members(y, others, key);
    if rows.len() > 0 {
        let n = rows.len() - 1;
        let t = rows.drop_last();
        let u = others.drop_last();
        lemma_shorter(x, rows, y, others);
        assert(crate::data::gathered(p, t) =~= crate::data::gathered(p, rows).drop_last());
        assert(crate::data::gathered(q, u) =~= crate::data::gathered(q, others).drop_last());
        lemma_same_members(x, p, t, y, q, u, key);
        assert(labelled(x, rows)[n] == labelled(y, others)[n]);
        assert(others.len() == rows.len());
        assert(crate::data::gathered(p, rows)[n] == p.values@[rows[n] as int]);
        assert(crate::data::gathered(q, others)[n] == q.values@[others[n] as int]);
        let before = crate::data::members(x, t, key);
        let earlier = crate::data::members(y, u, key);
        assert(crate::data::gathered(p, before.push(rows[n])) =~= crate::data::gathered(
            p,
            before,
        ).push(p.values@[rows[n] as int]));
        assert(crate::data::gathered(q, earlier.push(others[n])) =~= crate::data::gathered(
            q,
            earlier,
        ).push(q.values@[others[n] as int]));
        assert(rows.last() == rows[n] && others.last() == others[n]);
        if crate::data::label(x, rows[n]) == key {
            assert(mine == before.push(rows[n]) && theirs == earlier.push(others[n]));
            assert(p.values@[rows[n] as int] == q.values@[others[n] as int]);
            assert(crate::data::gathered(p, mine) == crate::data::gathered(q, theirs));
        } else {
            assert(crate::data::label(y, others[n]) != key);
            assert(mine == before && theirs == earlier);
        }
    } else {
        assert(crate::data::gathered(p, mine) =~= crate::data::gathered(q, theirs));
    }
}

/// Groups that hold the same values hold them in the same order when read group after
/// group.
proof fn lemma_same_order(a: Seq<Members>, p: NumericColumn, b: Seq<Members>, q: NumericColumn)
    requires
        a.len() == b.len(),
        forall|g: int|
            0 <= g < a.len() ==> crate::data::gathered(p, (#[trigger] a[g]).rows)
                == crate::data::gathered(q, b[g].rows),
    ensures
        crate::data::gathered(p, crate::data::in_group_order(a)) == crate::data::gathered(
            q,
            crate::data::in_group_order(b),
        ),
        crate::data::group_numbers(a) == crate::data::group_numbers(b),
    decreases a.len(),
{
    if a.len() > 0 {
        let n = a.len() - 1;
        let s = a.drop_last();
        let t = b.drop_last();
        assert forall|g: int| 0 <= g < s.len() implies crate::data::gathered(
            p,
            (#[trigger] s[g]).rows,
        ) == crate::data::gathered(q, t[g].rows) by {
            assert(a[g] == s[g]);
        }
        lemma_same_order(s, p, t, q);
        let l = crate::data::in_group_order(s);
        let m = crate::data::in_group_order(t);
        assert(crate::data::gathered(p, a[n].rows) == crate::data::gathered(q, b[n].rows));
        assert(crate::data::gathered(p, a[n].rows).len() == crate::data::gathered(
            q,
            b[n].rows,
        ).len());
        assert(crate::data::gathered(p, l + a[n].rows) =~= crate::data::gathered(p, l)
            + crate::data::gathered(p, a[n].rows));
        assert(crate::data::gathered(q, m + b[n].rows) =~= crate::data::gathered(q, m)
            + crate::data::gathered(q, b[n].rows));
        assert(crate::data::group_numbers(a) =~= crate::data::group_numbers(b));
    } else {
        assert(crate::data::gathered(p, crate::data::in_group_order(a)) =~= crate::data::gathered(
            q,
            crate::data::in_group_order(b),
        ));
    }
}

/// Whether two panels are the same but for the numbers of their rows: the same groups, of
/// the same sizes, with the same values in the named columns.
pub open spec fn same_panel(
    a: DataView,
    mine: PanelView,
    b: DataView,
    theirs: PanelView,
    numeric: Seq<Seq<char>>,
) -> bool {
    &&& mine.keys() == theirs.keys()
    &&& mine.groups.len() == theirs.groups.len()
    &&& mine.group_of() == theirs.group_of()
    &&& mine.rows.len() == theirs.rows.len()
    &&& mine.order().len() == theirs.order().len()
    &&& forall|g: int|
        0 <= g < mine.groups.len() ==> (#[trigger] mine.groups[g]).rows.len()
            == theirs.groups[g].rows.len()
    &&& forall|c: int|
        0 <= c < numeric.len() ==> crate::data::gathered(
            a.column(#[trigger] numeric[c])->0,
            mine.order(),
        ) == crate::data::gathered(b.column(numeric[c])->0, theirs.order())
    &&& forall|c: int, g: int|
        0 <= c < numeric.len() && 0 <= g < mine.groups.len() ==> crate::data::gathered(
            a.column(#[trigger] numeric[c])->0,
            (#[trigger] mine.groups[g]).rows,
        ) == crate::data::gathered(b.column(numeric[c])->0, theirs.groups[g].rows)
}

proof fn lemma_panel_too(
    a: DataView,
    b: DataView,
    numeric: Seq<Seq<char>>,
    group: Option<Seq<char>>,
    police: bool,
)
    requires
        crate::panel::panel_of(a, numeric, group, police) is Ok,
        reading_of(b, numeric, crate::panel::group_columns(group)) is Ok,
        reading_of(a, numeric, crate::panel::group_columns(group))->Ok_0.same_entries(
            reading_of(b, numeric, crate::panel::group_columns(group))->Ok_0,
        ),
    ensures
        crate::panel::panel_of(b, numeric, group, police) is Ok,
{
    let keys = crate::panel::group_columns(group);
    if let Some(name) = group {
        let read_a = reading_of(a, numeric, keys)->Ok_0;
        let read_b = reading_of(b, numeric, keys)->Ok_0;
        crate::data::lemma_no_fault(b.presence(numeric, keys));
        assert(b.presence(numeric, keys)[numeric.len() as int] is None);
        assert(read_a.labels[0] == read_b.labels[0]);
        let x = a.key_column(name)->0;
        let y = b.key_column(name)->0;
        lemma_same_keys(x, read_a.rows, y, read_b.rows);
        let mine = crate::data::parted(x, read_a.rows);
        let theirs = crate::data::parted(y, read_b.rows);
        assert(Seq::new(mine.len(), |i: int| crate::types::group_key_fault(mine[i].key))
            =~= Seq::new(theirs.len(), |i: int| crate::types::group_key_fault(theirs[i].key)));
    }
}

/// Two relations that were read alike are parted into the same panel.
pub proof fn what_is_read_decides_the_panel(
    a: DataView,
    b: DataView,
    numeric: Seq<Seq<char>>,
    group: Option<Seq<char>>,
    police: bool,
)
    requires
        numeric.len() > 0,
        crate::panel::panel_of(a, numeric, group, police) is Ok,
        reading_of(b, numeric, crate::panel::group_columns(group)) is Ok,
        reading_of(a, numeric, crate::panel::group_columns(group))->Ok_0.same_entries(
            reading_of(b, numeric, crate::panel::group_columns(group))->Ok_0,
        ),
    ensures
        crate::panel::panel_of(b, numeric, group, police) is Ok,
        same_panel(
            a,
            crate::panel::panel_of(a, numeric, group, police)->Ok_0,
            b,
            crate::panel::panel_of(b, numeric, group, police)->Ok_0,
            numeric,
        ),
{
    let keys = crate::panel::group_columns(group);
    let mine = crate::panel::panel_of(a, numeric, group, police)->Ok_0;
    lemma_panel_too(a, b, numeric, group, police);
    let theirs = crate::panel::panel_of(b, numeric, group, police)->Ok_0;
    let read_a = reading_of(a, numeric, keys)->Ok_0;
    let read_b = reading_of(b, numeric, keys)->Ok_0;
    assert forall|c: int| 0 <= c < numeric.len() implies crate::data::gathered(
        a.column(#[trigger] numeric[c])->0,
        mine.rows,
    ) == crate::data::gathered(b.column(numeric[c])->0, theirs.rows) by {
        assert(read_a.numbers[c] == read_b.numbers[c]);
    }
    assert forall|c: int, g: int|
        0 <= c < numeric.len() && 0 <= g < mine.groups.len() implies crate::data::gathered(
        a.column(#[trigger] numeric[c])->0,
        (#[trigger] mine.groups[g]).rows,
    ) == crate::data::gathered(b.column(numeric[c])->0, theirs.groups[g].rows) by {
        if let Some(name) = group {
            assert(read_a.labels[0] == read_b.labels[0]);
            let x = a.key_column(name)->0;
            let y = b.key_column(name)->0;
            lemma_same_keys(x, mine.rows, y, theirs.rows);
            lemma_same_members(
                x,
                a.column(numeric[c])->0,
                mine.rows,
                y,
                b.column(numeric[c])->0,
                theirs.rows,
                mine.groups[g].key,
            );
        }
    }
    if let Some(name) = group {
        assert(read_a.labels[0] == read_b.labels[0]);
        lemma_same_keys(
            a.key_column(name)->0,
            mine.rows,
            b.key_column(name)->0,
            theirs.rows,
        );
    }
    assert(mine.keys() =~= theirs.keys());
    assert forall|g: int| 0 <= g < mine.groups.len() implies (
    #[trigger] mine.groups[g]).rows.len() == theirs.groups[g].rows.len() by {
        let values = crate::data::gathered(a.column(numeric[0])->0, mine.groups[g].rows);
        assert(values.len() == crate::data::gathered(
            b.column(numeric[0])->0,
            theirs.groups[g].rows,
        ).len());
    }
    assert forall|c: int| 0 <= c < numeric.len() implies crate::data::gathered(
        a.column(#[trigger] numeric[c])->0,
        mine.order(),
    ) == crate::data::gathered(b.column(numeric[c])->0, theirs.order()) by {
        lemma_same_order(
            mine.groups,
            a.column(numeric[c])->0,
            theirs.groups,
            b.column(numeric[c])->0,
        );
    }
    lemma_same_order(
        mine.groups,
        a.column(numeric[0])->0,
        theirs.groups,
        b.column(numeric[0])->0,
    );
    assert(crate::data::gathered(a.column(numeric[0])->0, mine.order()).len()
        == crate::data::gathered(b.column(numeric[0])->0, theirs.order()).len());
}

} // verus!
