//! The rows a fit reads, parted into groups.
use crate::data::{
    flatten, group_keys, validate_group_keys, DataView, Group, KeyColumn, Members,
};
use crate::errors::{BayesError, BayesResult, Fault};
use crate::text::push_text;
use vstd::prelude::*;

verus! {

/// The usable rows, their groups, and the rows read group after group.
pub struct Panel {
    pub rows: Vec<usize>,
    pub groups: Vec<Group>,
    pub keys: Vec<String>,
    /// The rows, group after group.
    pub order: Vec<usize>,
    /// Of each row of `order`, the number of its group.
    pub group_of: Vec<usize>,
}

/// What a [`Panel`] holds.
#[verifier::ext_equal]
pub struct PanelView {
    pub rows: Seq<usize>,
    pub groups: Seq<Members>,
}

impl View for Panel {
    type V = PanelView;

    open spec fn view(&self) -> PanelView {
        PanelView { rows: self.rows@, groups: crate::data::groups_of(self.groups@) }
    }
}

impl PanelView {
    /// The rows, group after group.
    pub open spec fn order(self) -> Seq<usize> {
        crate::data::in_group_order(self.groups)
    }

    /// Of each row of [`PanelView::order`], the number of its group.
    pub open spec fn group_of(self) -> Seq<usize> {
        crate::data::group_numbers(self.groups)
    }

    pub open spec fn keys(self) -> Seq<Seq<char>> {
        crate::data::keys_of(self.groups)
    }
}

impl Panel {
    /// The derived parts are those of the rows and groups, and every row is one of the
    /// relation.
    pub open spec fn wf(self, n_rows: int) -> bool {
        &&& crate::text::texts(self.keys@) == self@.keys()
        &&& self.order@ == self@.order()
        &&& self.group_of@ == self@.group_of()
        &&& self.group_of@.len() == self.order@.len()
        &&& crate::data::rows_within(self.order@, n_rows)
        &&& crate::data::rows_within(self.rows@, n_rows)
        &&& crate::data::groups_within(self@.groups, n_rows)
        &&& self.order@.len() == self.rows@.len()
        &&& self.rows@.len() <= n_rows
        &&& self.keys@.len() <= n_rows + 1
        &&& forall|i: int|
            0 <= i < self.group_of@.len() ==> (#[trigger] self.group_of@[i]) < self.keys@.len()
    }
}

/// The names of the key columns a grouping reads.
pub open spec fn group_columns(group: Option<Seq<char>>) -> Seq<Seq<char>> {
    match group {
        Some(name) => seq![name],
        None => Seq::empty(),
    }
}

/// The panel that a request reads, or why it cannot be read. Where the groups are named
/// by a column and `police` is set, none of them may carry the reserved key.
pub open spec fn panel_of(
    data: DataView,
    numeric: Seq<Seq<char>>,
    group: Option<Seq<char>>,
    police: bool,
) -> Result<PanelView, Fault> {
    match data.usable(numeric, group_columns(group)) {
        Err(f) => Err(f),
        Ok(rows) => match data.groups(group, rows) {
            Err(f) => Err(f),
            Ok(groups) => if police && group is Some && crate::data::group_keys_fault(
                groups,
            ) is Some {
                Err(crate::data::group_keys_fault(groups)->0)
            } else {
                Ok(PanelView { rows, groups })
            },
        },
    }
}

proof fn lemma_panel_sizes(data: DataView, group: Option<Seq<char>>, rows: Seq<usize>)
    requires
        data.wf(),
        rows.len() <= data.n_rows,
        data.groups(group, rows) is Ok,
    ensures
        data.groups(group, rows)->Ok_0.len() <= data.n_rows + 1,
        crate::data::in_group_order(data.groups(group, rows)->Ok_0).len() == rows.len(),
{
    match group {
        None => {
            let one = seq![Members { key: crate::types::global_group(), rows }];
            assert(one.drop_last() =~= Seq::<Members>::empty());
            assert(crate::data::in_group_order(one.drop_last()) =~= Seq::<usize>::empty());
            assert(crate::data::in_group_order(one) =~= rows);
        },
        Some(name) => {
            let column = data.key_column(name)->0;
            crate::data::no_row_is_lost_or_doubled_by_grouping(column, rows);
            crate::data::no_more_groups_than_rows(column, rows);
        },
    }
}

/// Read group after group, a panel holds every row that was read, and each of them once.
pub proof fn a_panel_holds_each_row_read_once(
    data: DataView,
    numeric: Seq<Seq<char>>,
    group: Option<Seq<char>>,
    police: bool,
)
    ensures
        panel_of(data, numeric, group, police) matches Ok(p) ==> {
            &&& data.usable(numeric, group_columns(group)) == Ok::<Seq<usize>, Fault>(p.rows)
            &&& p.order().len() == p.rows.len()
            &&& p.order().to_multiset() == p.rows.to_multiset()
        },
{
    if let Ok(p) = panel_of(data, numeric, group, police) {
        match group {
            None => {
                assert(p.groups.drop_last() =~= Seq::<Members>::empty());
                assert(crate::data::in_group_order(p.groups.drop_last())
                    =~= Seq::<usize>::empty());
                assert(p.order() =~= p.rows);
            },
            Some(name) => {
                crate::data::no_row_is_lost_or_doubled_by_grouping(
                    data.key_column(name)->0,
                    p.rows,
                );
            },
        }
    }
}

/// Whether no named column is absent in a row.
pub open spec fn all_present(
    data: DataView,
    numeric: Seq<Seq<char>>,
    keys: Seq<Seq<char>>,
    row: int,
) -> bool {
    &&& forall|c: int|
        0 <= c < numeric.len() ==> (data.column(#[trigger] numeric[c]) matches Some(column)
            && column.valid@[row])
    &&& forall|c: int|
        0 <= c < keys.len() ==> (data.key_column(#[trigger] keys[c]) matches Some(column)
            && column.valid@[row])
}

/// Whether several rows are those in which no named column is absent, each of them once.
pub open spec fn each_present_row_once(
    data: DataView,
    numeric: Seq<Seq<char>>,
    keys: Seq<Seq<char>>,
    rows: Seq<usize>,
) -> bool {
    &&& forall|i: int, j: int|
        0 <= i < j < rows.len() ==> (#[trigger] rows[i]) != (#[trigger] rows[j])
    &&& forall|i: int|
        0 <= i < rows.len() ==> (#[trigger] rows[i]) < data.n_rows && all_present(
            data,
            numeric,
            keys,
            rows[i] as int,
        )
    &&& forall|row: usize|
        row < data.n_rows && #[trigger] all_present(data, numeric, keys, row as int)
            ==> rows.contains(row)
}

/// Whether groups part several rows by their labels: each row stands in the group of its own
/// label, the groups follow each other in the order in which their labels first appear, and
/// the rows of a group in that of the relation.
pub open spec fn grouped_by_label(
    column: KeyColumn,
    rows: Seq<usize>,
    group_of: Seq<usize>,
    labels: Seq<Seq<char>>,
) -> bool {
    &&& group_of.len() == rows.len()
    &&& forall|i: int|
        0 <= i < rows.len() ==> (#[trigger] group_of[i]) < labels.len()
            && labels[group_of[i] as int] == column.values@[rows[i] as int]@
    &&& forall|i: int, j: int|
        0 <= i < j < rows.len() ==> (#[trigger] group_of[i]) <= (#[trigger] group_of[j])
    &&& forall|i: int, j: int|
        0 <= i < j < rows.len() && group_of[i] == group_of[j] ==> (#[trigger] rows[i])
            < (#[trigger] rows[j])
    &&& forall|g: int, h: int|
        0 <= g < h < labels.len() ==> (#[trigger] labels[g]) != (#[trigger] labels[h])
    &&& forall|g: int| 0 <= g < labels.len() ==> #[trigger] opens(rows, group_of, g)
}

/// Whether some row of a group comes before every row of a later one.
pub open spec fn opens(rows: Seq<usize>, group_of: Seq<usize>, g: int) -> bool {
    exists|i: int| 0 <= i < rows.len() && #[trigger] group_of[i] == g && leads(rows, group_of, i)
}

/// Whether a row comes before every row of a later group.
pub open spec fn leads(rows: Seq<usize>, group_of: Seq<usize>, i: int) -> bool {
    forall|j: int|
        0 <= j < rows.len() && group_of[i] < (#[trigger] group_of[j]) ==> rows[i] < rows[j]
}

proof fn lemma_all_present(
    data: DataView,
    numeric: Seq<Seq<char>>,
    keys: Seq<Seq<char>>,
    row: int,
)
    requires
        data.usable(numeric, keys) is Ok,
    ensures
        all_present(data, numeric, keys, row) <==> data.complete(numeric, keys, row),
{
    let presence = data.presence(numeric, keys);
    crate::data::lemma_no_fault(presence);
    assert forall|c: int| 0 <= c < numeric.len() implies data.column(#[trigger] numeric[c]) is Some
        by {
        assert(presence[c] is None);
    }
    assert forall|c: int| 0 <= c < keys.len() implies data.key_column(#[trigger] keys[c]) is Some
        by {
        assert(presence[numeric.len() + c] is None);
    }
}

/// The rows that a request reads are those in which no column it names is absent, in the
/// order of the relation and each of them once.
pub proof fn the_rows_read_are_the_complete_ones(
    data: DataView,
    numeric: Seq<Seq<char>>,
    keys: Seq<Seq<char>>,
)
    ensures
        data.usable(numeric, keys) matches Ok(rows) ==> {
            &&& each_present_row_once(data, numeric, keys, rows)
            &&& forall|i: int, j: int|
                0 <= i < j < rows.len() ==> (#[trigger] rows[i]) < (#[trigger] rows[j])
        },
        data.usable(numeric, keys) is Ok <==> (forall|c: int|
            0 <= c < numeric.len() ==> data.column(#[trigger] numeric[c]) is Some) && (forall|
            c: int,
        |
            0 <= c < keys.len() ==> data.key_column(#[trigger] keys[c]) is Some),
{
    let presence = data.presence(numeric, keys);
    crate::data::a_row_is_read_exactly_when_nothing_it_needs_is_absent(data, numeric, keys);
    if let Ok(rows) = data.usable(numeric, keys) {
        assert forall|i: int| 0 <= i < rows.len() implies (#[trigger] rows[i]) < data.n_rows
            && all_present(data, numeric, keys, rows[i] as int) by {
            assert(rows.contains(rows[i]));
            lemma_all_present(data, numeric, keys, rows[i] as int);
        }
        assert forall|row: usize|
            row < data.n_rows && #[trigger] all_present(
                data,
                numeric,
                keys,
                row as int,
            ) implies rows.contains(row) by {
            lemma_all_present(data, numeric, keys, row as int);
        }
        crate::data::lemma_no_fault(presence);
        assert forall|c: int| 0 <= c < numeric.len() implies data.column(
            #[trigger] numeric[c],
        ) is Some by {
            assert(presence[c] is None);
        }
        assert forall|c: int| 0 <= c < keys.len() implies data.key_column(
            #[trigger] keys[c],
        ) is Some by {
            assert(presence[numeric.len() + c] is None);
        }
    } else {
        if (forall|c: int| 0 <= c < numeric.len() ==> data.column(#[trigger] numeric[c]) is Some)
            && (forall|c: int|
            0 <= c < keys.len() ==> data.key_column(#[trigger] keys[c]) is Some) {
            assert forall|i: int| 0 <= i < presence.len() implies (#[trigger] presence[i]) is None
                by {
                if i < numeric.len() {
                    assert(data.column(numeric[i]) is Some);
                } else {
                    assert(data.key_column(keys[i - numeric.len()]) is Some);
                }
            }
            crate::data::lemma_first_fault(presence, presence.len() as int);
        }
    }
}

proof fn lemma_members_increase(column: KeyColumn, rows: Seq<usize>, key: Seq<char>)
    requires
        forall|i: int, j: int|
            0 <= i < j < rows.len() ==> (#[trigger] rows[i]) < (#[trigger] rows[j]),
    ensures
        ({
            let own = crate::data::members(column, rows, key);
            &&& forall|i: int, j: int|
                0 <= i < j < own.len() ==> (#[trigger] own[i]) < (#[trigger] own[j])
            &&& forall|i: int|
                0 <= i < own.len() ==> rows.contains(#[trigger] own[i]) && crate::data::label(
                    column,
                    own[i],
                ) == key
            &&& forall|k: int|
                0 <= k < rows.len() && crate::data::label(column, #[trigger] rows[k]) == key
                    ==> own.contains(rows[k])
        }),
    decreases rows.len(),
{
    if rows.len() > 0 {
        let t = rows.drop_last();
        lemma_members_increase(column, t, key);
        let before = crate::data::members(column, t, key);
        let own = crate::data::members(column, rows, key);
        let last = rows.len() - 1;
        assert forall|i: int| 0 <= i < own.len() implies rows.contains(#[trigger] own[i])
            && crate::data::label(column, own[i]) == key && (i < before.len() ==> own[i]
            < rows[last]) by {
            if i < before.len() {
                assert(own[i] == before[i]);
                let k = choose|k: int| 0 <= k < t.len() && t[k] == before[i];
                assert(rows[k] == own[i]);
            } else {
                assert(own[i] == rows[last]);
            }
        }
        assert forall|k: int|
            0 <= k < rows.len() && crate::data::label(
                column,
                #[trigger] rows[k],
            ) == key implies own.contains(rows[k]) by {
            if k < last {
                assert(t[k] == rows[k]);
                let i = choose|i: int| 0 <= i < before.len() && before[i] == t[k];
                assert(own[i] == rows[k]);
            } else {
                assert(own[own.len() - 1] == rows[k]);
            }
        }
    }
}

/// The first row of a group precedes the first row of a later one.
proof fn lemma_first_appearance(column: KeyColumn, rows: Seq<usize>, g: int, h: int)
    requires
        forall|i: int, j: int|
            0 <= i < j < rows.len() ==> (#[trigger] rows[i]) < (#[trigger] rows[j]),
        0 <= g < h < crate::data::distinct(column, rows).len(),
    ensures
        ({
            let keys = crate::data::distinct(column, rows);
            let mine = crate::data::members(column, rows, keys[g]);
            let theirs = crate::data::members(column, rows, keys[h]);
            mine.len() > 0 && theirs.len() > 0 && mine[0] < theirs[0]
        }),
    decreases rows.len(),
{
    let t = rows.drop_last();
    let last = rows.len() - 1;
    let before = crate::data::distinct(column, t);
    let keys = crate::data::distinct(column, rows);
    assert(before == keys || before == keys.drop_last());
    if h < before.len() {
        lemma_first_appearance(column, t, g, h);
        assert(keys[g] == before[g] && keys[h] == before[h]);
    } else {
        assert(keys[h] == crate::data::label(column, rows[last]));
        assert(keys[g] == before[g]);
        let earlier = crate::data::members(column, t, keys[h]);
        crate::data::groups_part_the_rows_by_key(column, t);
        crate::data::groups_part_the_rows_by_key(column, rows);
        assert(crate::data::parted(column, t)[g].rows.len() > 0);
        let mine = crate::data::members(column, t, keys[g]);
        assert(mine == crate::data::parted(column, t)[g].rows);
        lemma_members_increase(column, t, keys[g]);
        let k = choose|k: int| 0 <= k < t.len() && t[k] == mine[0];
        assert(rows[k] < rows[last]);
        if earlier.len() > 0 {
            lemma_members_increase(column, t, keys[h]);
            let k = choose|k: int| 0 <= k < t.len() && t[k] == earlier[0];
            assert(crate::data::label(column, t[k]) == keys[h]);
            assert(crate::data::keys_of(crate::data::parted(column, t)) =~= before);
            assert(before.contains(keys[h]));
            let b = choose|b: int| 0 <= b < before.len() && before[b] == keys[h];
            assert(crate::data::parted(column, rows)[b].key == keys[b]);
            assert(crate::data::parted(column, rows)[h].key == keys[h]);
            assert(keys[b] == before[b]);
            assert(false);
        }
    }
}

/// Of each row in group order, the number of its group and where it stands in it.
proof fn lemma_group_order(groups: Seq<Members>)
    requires
        groups.len() <= usize::MAX,
    ensures
        ({
            let order = crate::data::in_group_order(groups);
            let numbers = crate::data::group_numbers(groups);
            &&& numbers.len() == order.len()
            &&& forall|i: int|
                0 <= i < order.len() ==> (#[trigger] numbers[i]) < groups.len()
                    && groups[numbers[i] as int].rows.contains(order[i])
            &&& forall|i: int, j: int|
                0 <= i < j < order.len() ==> (#[trigger] numbers[i]) <= (#[trigger] numbers[j])
            &&& forall|g: int|
                0 <= g < groups.len() && (#[trigger] groups[g]).rows.len() > 0 ==> exists|i: int|
                    0 <= i < order.len() && #[trigger] numbers[i] == g && order[i]
                        == groups[g].rows[0]
        }),
        (forall|g: int, i: int, j: int|
            0 <= g < groups.len() && 0 <= i < j < groups[g].rows.len() ==> (
            #[trigger] groups[g].rows[i]) < (#[trigger] groups[g].rows[j])) ==> (forall|
            i: int,
            j: int,
        |
            0 <= i < j < crate::data::in_group_order(groups).len()
                && crate::data::group_numbers(groups)[i] == crate::data::group_numbers(groups)[j]
                ==> (#[trigger] crate::data::in_group_order(groups)[i]) < (
            #[trigger] crate::data::in_group_order(groups)[j])),
    decreases groups.len(),
{
    if groups.len() > 0 {
        let t = groups.drop_last();
        lemma_group_order(t);
        let order = crate::data::in_group_order(groups);
        let numbers = crate::data::group_numbers(groups);
        let m = crate::data::in_group_order(t).len() as int;
        let last = groups.len() - 1;
        assert forall|i: int| 0 <= i < order.len() implies (#[trigger] numbers[i]) < groups.len()
            && groups[numbers[i] as int].rows.contains(order[i]) && (i < m ==> numbers[i] < last)
            && (i >= m ==> numbers[i] == last) by {
            if i < m {
                assert(numbers[i] == crate::data::group_numbers(t)[i]);
                assert(order[i] == crate::data::in_group_order(t)[i]);
                assert(t[numbers[i] as int] == groups[numbers[i] as int]);
            } else {
                assert(groups[last].rows[i - m] == order[i]);
            }
        }
        assert forall|i: int, j: int| 0 <= i < j < order.len() implies (#[trigger] numbers[i]) <= (
        #[trigger] numbers[j]) by {
            if j < m {
                assert(numbers[i] == crate::data::group_numbers(t)[i]);
                assert(numbers[j] == crate::data::group_numbers(t)[j]);
            }
        }
        assert forall|g: int|
            0 <= g < groups.len() && (#[trigger] groups[g]).rows.len() > 0 implies exists|i: int|
            0 <= i < order.len() && #[trigger] numbers[i] == g && order[i] == groups[g].rows[0] by {
            if g < last {
                assert(t[g] == groups[g]);
                let i = choose|i: int|
                    0 <= i < m && #[trigger] crate::data::group_numbers(t)[i] == g
                        && crate::data::in_group_order(t)[i] == t[g].rows[0];
                assert(numbers[i] == g);
                assert(order[i] == groups[g].rows[0]);
            } else {
                assert(numbers[m] == g);
                assert(order[m] == groups[g].rows[0]);
            }
        }
        if forall|g: int, i: int, j: int|
            0 <= g < groups.len() && 0 <= i < j < groups[g].rows.len() ==> (
            #[trigger] groups[g].rows[i]) < (#[trigger] groups[g].rows[j]) {
            assert forall|g: int, i: int, j: int|
                0 <= g < t.len() && 0 <= i < j < t[g].rows.len() implies (#[trigger] t[g].rows[i])
                < (#[trigger] t[g].rows[j]) by {
                assert(groups[g].rows[i] < groups[g].rows[j]);
            }
            assert forall|i: int, j: int|
                0 <= i < j < order.len() && numbers[i] == numbers[j] implies (#[trigger] order[i])
                < (#[trigger] order[j]) by {
                if j < m {
                    assert(order[i] == crate::data::in_group_order(t)[i]);
                    assert(order[j] == crate::data::in_group_order(t)[j]);
                    assert(crate::data::group_numbers(t)[i] == numbers[i]);
                    assert(crate::data::group_numbers(t)[j] == numbers[j]);
                } else {
                    assert(numbers[i] == last);
                    assert(i >= m);
                    assert(order[i] == groups[last].rows[i - m]);
                    assert(order[j] == groups[last].rows[j - m]);
                }
            }
        }
    }
}

/// A panel reads every complete row once, and puts each into the group of its own label,
/// the groups in the order in which their labels first appear.
pub proof fn a_panel_puts_each_row_into_its_own_group(
    data: DataView,
    numeric: Seq<Seq<char>>,
    group: Seq<char>,
    police: bool,
)
    ensures
        panel_of(data, numeric, Some(group), police) matches Ok(p) ==> {
            &&& each_present_row_once(data, numeric, seq![group], p.order())
            &&& data.key_column(group) is Some
            &&& grouped_by_label(data.key_column(group)->0, p.order(), p.group_of(), p.keys())
        },
{
    if let Ok(p) = panel_of(data, numeric, Some(group), police) {
        let column = data.key_column(group)->0;
        let rows = p.rows;
        let order = p.order();
        let numbers = p.group_of();
        let keys = crate::data::distinct(column, rows);
        the_rows_read_are_the_complete_ones(data, numeric, seq![group]);
        a_panel_holds_each_row_read_once(data, numeric, Some(group), police);
        assert(seq![group][0] == group);
        lemma_same_rows(rows, order);
        crate::data::groups_part_the_rows_by_key(column, rows);
        crate::data::no_more_groups_than_rows(column, rows);
        crate::data::usable_rows_are_no_more_than_rows(data, numeric, seq![group]);
        lemma_group_order(p.groups);
        assert(p.keys() =~= keys);
        assert forall|g: int, i: int, j: int|
            0 <= g < p.groups.len() && 0 <= i < j < p.groups[g].rows.len() implies (
        #[trigger] p.groups[g].rows[i]) < (#[trigger] p.groups[g].rows[j]) by {
            lemma_members_increase(column, rows, keys[g]);
        }
        assert forall|i: int| 0 <= i < order.len() implies (#[trigger] numbers[i]) < keys.len()
            && keys[numbers[i] as int] == column.values@[order[i] as int]@ by {
            let g = numbers[i] as int;
            lemma_members_increase(column, rows, keys[g]);
            let k = choose|k: int|
                0 <= k < p.groups[g].rows.len() && p.groups[g].rows[k] == order[i];
            assert(crate::data::label(column, p.groups[g].rows[k]) == keys[g]);
        }
        assert forall|g: int, h: int| 0 <= g < h < keys.len() implies (#[trigger] keys[g]) != (
        #[trigger] keys[h]) by {
            assert(p.groups[g].key != p.groups[h].key);
        }
        assert forall|g: int| 0 <= g < keys.len() implies #[trigger] opens(order, numbers, g) by {
            assert(p.groups[g].rows.len() > 0);
            let i = choose|i: int|
                0 <= i < order.len() && #[trigger] numbers[i] == g && order[i]
                    == p.groups[g].rows[0];
            assert forall|j: int|
                0 <= j < order.len() && numbers[i] < (#[trigger] numbers[j]) implies order[i]
                < order[j] by {
                let h = numbers[j] as int;
                lemma_first_appearance(column, rows, g, h);
                lemma_members_increase(column, rows, keys[h]);
                let theirs = p.groups[h].rows;
                assert(theirs.contains(order[j]));
                let k = choose|k: int| 0 <= k < theirs.len() && theirs[k] == order[j];
                if k > 0 {
                    assert(theirs[0] < theirs[k]);
                }
            }
            assert(leads(order, numbers, i));
        }
        assert forall|i: int| 0 <= i < order.len() implies (#[trigger] order[i]) < data.n_rows
            && all_present(data, numeric, seq![group], order[i] as int) by {
            assert(order.contains(order[i]));
            let k = choose|k: int| 0 <= k < rows.len() && rows[k] == order[i];
            assert(rows[k] == order[i]);
        }
    }
}

proof fn lemma_same_rows(rows: Seq<usize>, order: Seq<usize>)
    requires
        order.to_multiset() == rows.to_multiset(),
        forall|i: int, j: int|
            0 <= i < j < rows.len() ==> (#[trigger] rows[i]) < (#[trigger] rows[j]),
    ensures
        forall|row: usize| rows.contains(row) <==> order.contains(row),
        forall|i: int, j: int|
            0 <= i < j < order.len() ==> (#[trigger] order[i]) != (#[trigger] order[j]),
{
    broadcast use vstd::seq_lib::group_to_multiset_ensures;

    assert(rows.no_duplicates());
    rows.lemma_multiset_has_no_duplicates();
    assert forall|row: usize| order.to_multiset().count(row) <= 1 by {
        if rows.contains(row) {
            assert(rows.to_multiset().contains(row));
        }
    }
    order.lemma_multiset_has_no_duplicates_conv();
    assert forall|row: usize| rows.contains(row) <==> order.contains(row) by {
        assert(rows.contains(row) <==> rows.to_multiset().count(row) > 0);
        assert(order.contains(row) <==> order.to_multiset().count(row) > 0);
    }
}

/// A panel without a grouping column is one group of all complete rows, in the order of the
/// relation.
pub proof fn an_ungrouped_panel_is_one_group(data: DataView, numeric: Seq<Seq<char>>, police: bool)
    ensures
        panel_of(data, numeric, None, police) matches Ok(p) ==> {
            &&& each_present_row_once(data, numeric, Seq::empty(), p.rows)
            &&& forall|i: int, j: int|
                0 <= i < j < p.rows.len() ==> (#[trigger] p.rows[i]) < (#[trigger] p.rows[j])
            &&& p.order() == p.rows
            &&& p.groups.len() == 1
            &&& p.groups[0].rows == p.rows
            &&& p.groups[0].key == "__global__"@
            &&& p.group_of().len() == p.rows.len()
            &&& forall|i: int| 0 <= i < p.rows.len() ==> #[trigger] p.group_of()[i] == 0
        },
{
    if let Ok(p) = panel_of(data, numeric, None, police) {
        the_rows_read_are_the_complete_ones(data, numeric, Seq::empty());
        assert(p.groups.drop_last() =~= Seq::<Members>::empty());
        assert(crate::data::in_group_order(p.groups.drop_last()) =~= Seq::<usize>::empty());
        assert(crate::data::group_numbers(p.groups.drop_last()) =~= Seq::<usize>::empty());
        assert(p.order() =~= p.rows);
    }
}

/// Whether several rows are those that carry a label, of the complete ones, in the order of
/// the relation.
pub open spec fn rows_of_label(
    data: DataView,
    numeric: Seq<Seq<char>>,
    group: Seq<char>,
    label: Seq<char>,
    rows: Seq<usize>,
) -> bool {
    &&& forall|i: int, j: int|
        0 <= i < j < rows.len() ==> (#[trigger] rows[i]) < (#[trigger] rows[j])
    &&& forall|i: int|
        0 <= i < rows.len() ==> (#[trigger] rows[i]) < data.n_rows && all_present(
            data,
            numeric,
            seq![group],
            rows[i] as int,
        ) && data.key_column(group)->0.values@[rows[i] as int]@ == label
    &&& forall|row: usize|
        row < data.n_rows && #[trigger] all_present(data, numeric, seq![group], row as int)
            && data.key_column(group)->0.values@[row as int]@ == label ==> rows.contains(row)
}

/// The rows of a group are those that carry its label, and no two groups share one.
pub proof fn a_group_holds_the_rows_of_its_label(
    data: DataView,
    numeric: Seq<Seq<char>>,
    group: Seq<char>,
    police: bool,
)
    ensures
        panel_of(data, numeric, Some(group), police) matches Ok(p) ==> {
            &&& forall|g: int|
                0 <= g < p.groups.len() ==> (#[trigger] p.groups[g]).rows.len() > 0
                    && rows_of_label(data, numeric, group, p.groups[g].key, p.groups[g].rows)
            &&& forall|g: int, h: int|
                0 <= g < h < p.groups.len() ==> (#[trigger] p.groups[g]).key != (
                #[trigger] p.groups[h]).key && p.groups[g].rows[0] < p.groups[h].rows[0]
            &&& forall|row: usize|
                row < data.n_rows && #[trigger] all_present(data, numeric, seq![group], row as int)
                    ==> exists|g: int|
                    0 <= g < p.groups.len() && (#[trigger] p.groups[g]).rows.contains(row)
        },
{
    if let Ok(p) = panel_of(data, numeric, Some(group), police) {
        let column = data.key_column(group)->0;
        let rows = p.rows;
        let keys = crate::data::distinct(column, rows);
        the_rows_read_are_the_complete_ones(data, numeric, seq![group]);
        crate::data::groups_part_the_rows_by_key(column, rows);
        assert forall|g: int| 0 <= g < p.groups.len() implies (#[trigger] p.groups[g]).rows.len()
            > 0 && rows_of_label(data, numeric, group, p.groups[g].key, p.groups[g].rows) by {
            lemma_members_increase(column, rows, keys[g]);
            let own = p.groups[g].rows;
            assert(own == crate::data::members(column, rows, keys[g]));
            assert forall|i: int| 0 <= i < own.len() implies (#[trigger] own[i]) < data.n_rows
                && all_present(data, numeric, seq![group], own[i] as int)
                && column.values@[own[i] as int]@ == keys[g] by {
                let k = choose|k: int| 0 <= k < rows.len() && rows[k] == own[i];
                assert(rows[k] == own[i]);
                assert(crate::data::label(column, own[i]) == keys[g]);
            }
            assert forall|row: usize|
                row < data.n_rows && #[trigger] all_present(
                    data,
                    numeric,
                    seq![group],
                    row as int,
                ) && column.values@[row as int]@ == keys[g] implies own.contains(row) by {
                let k = choose|k: int| 0 <= k < rows.len() && rows[k] == row;
                assert(crate::data::label(column, rows[k]) == keys[g]);
            }
        }
        assert forall|g: int, h: int| 0 <= g < h < p.groups.len() implies (
        #[trigger] p.groups[g]).key != (#[trigger] p.groups[h]).key && p.groups[g].rows[0]
            < p.groups[h].rows[0] by {
            lemma_first_appearance(column, rows, g, h);
        }
        assert forall|row: usize|
            row < data.n_rows && #[trigger] all_present(
                data,
                numeric,
                seq![group],
                row as int,
            ) implies exists|g: int|
            0 <= g < p.groups.len() && (#[trigger] p.groups[g]).rows.contains(row) by {
            let k = choose|k: int| 0 <= k < rows.len() && rows[k] == row;
            let l = crate::data::label(column, rows[k]);
            assert(crate::data::keys_of(p.groups).contains(l));
            let g = choose|g: int|
                0 <= g < p.groups.len() && crate::data::keys_of(p.groups)[g] == l;
            assert(p.groups[g].key == l);
            assert(rows_of_label(data, numeric, group, p.groups[g].key, p.groups[g].rows));
        }
    }
}

/// Two lists of the complete rows, each of them once, hold the same rows.
pub proof fn lemma_same_rows_read(
    data: DataView,
    numeric: Seq<Seq<char>>,
    keys: Seq<Seq<char>>,
    rows: Seq<usize>,
    others: Seq<usize>,
)
    requires
        each_present_row_once(data, numeric, keys, rows),
        each_present_row_once(data, numeric, keys, others),
    ensures
        rows.len() == others.len(),
        forall|row: usize| rows.contains(row) <==> others.contains(row),
{
    assert forall|row: usize| rows.contains(row) <==> others.contains(row) by {
        if rows.contains(row) {
            let i = choose|i: int| 0 <= i < rows.len() && rows[i] == row;
            assert(all_present(data, numeric, keys, rows[i] as int));
        }
        if others.contains(row) {
            let i = choose|i: int| 0 <= i < others.len() && others[i] == row;
            assert(all_present(data, numeric, keys, others[i] as int));
        }
    }
    assert(rows.no_duplicates() && others.no_duplicates());
    rows.unique_seq_to_set();
    others.unique_seq_to_set();
    assert(rows.to_set() =~= others.to_set());
}

/// Whether an error names a column that the data does not have, and lists those that it has.
pub open spec fn names_a_missing_column(
    data: DataView,
    numeric: Seq<Seq<char>>,
    keys: Seq<Seq<char>>,
    e: BayesError,
) -> bool {
    e matches BayesError::MissingColumn { name, available } && {
        ||| {
            &&& numeric.contains(name@)
            &&& data.column(name@) is None
            &&& available@.len() == data.numeric@.len()
            &&& forall|i: int|
                0 <= i < available@.len() ==> (#[trigger] available@[i])@ == data.numeric@[i].name@
        }
        ||| {
            &&& keys.contains(name@)
            &&& data.key_column(name@) is None
            &&& available@.len() == data.keys@.len()
            &&& forall|i: int|
                0 <= i < available@.len() ==> (#[trigger] available@[i])@ == data.keys@[i].name@
        }
    }
}

/// A panel that cannot be read is refused for a column that is not there, with the ones that
/// are, or for the reserved label, under the slot that names the groups.
pub proof fn a_panel_is_refused_for_what_is_missing(
    data: DataView,
    numeric: Seq<Seq<char>>,
    group: Option<Seq<char>>,
    police: bool,
    e: BayesError,
)
    requires
        panel_of(data, numeric, group, police) == Err::<PanelView, Fault>(e@),
    ensures
        if data.usable(numeric, group_columns(group)) is Err {
            names_a_missing_column(data, numeric, group_columns(group), e)
        } else {
            e matches BayesError::Config { slot, .. } && slot@ == "group"@
        },
{
    let keys = group_columns(group);
    let presence = data.presence(numeric, keys);
    crate::errors::an_error_says_what_it_holds(e);
    if data.usable(numeric, keys) is Err {
        crate::data::lemma_fault_of_a_check(presence);
        let c = choose|c: int| 0 <= c < presence.len() && #[trigger] presence[c] == Some(e@);
        assert(presence[c] == Some(e@));
        if c < numeric.len() {
            assert(numeric.contains(numeric[c]));
        } else {
            assert(keys.contains(keys[c - numeric.len()]));
        }
        if let BayesError::MissingColumn { name, available } = e {
            let there = crate::text::texts(available@);
            assert(there.len() == available@.len());
            assert forall|i: int| 0 <= i < available@.len() implies there[i] == (
            #[trigger] available@[i])@ by {}
        }
    } else {
        let rows = data.usable(numeric, keys)->Ok_0;
        if let Some(name) = group {
            the_rows_read_are_the_complete_ones(data, numeric, keys);
            assert(keys[0] == name);
            let groups = crate::data::parted(data.key_column(name)->0, rows);
            let checks = Seq::new(
                groups.len(),
                |i: int| crate::types::group_key_fault(groups[i].key),
            );
            crate::data::lemma_fault_of_a_check(checks);
        }
    }
}

proof fn lemma_labels_are_among(
    column: KeyColumn,
    rows: Seq<usize>,
    group_of: Seq<usize>,
    labels: Seq<Seq<char>>,
    other_rows: Seq<usize>,
    other_group_of: Seq<usize>,
    other_labels: Seq<Seq<char>>,
)
    requires
        grouped_by_label(column, rows, group_of, labels),
        grouped_by_label(column, other_rows, other_group_of, other_labels),
        forall|row: usize| rows.contains(row) ==> other_rows.contains(row),
    ensures
        forall|l: Seq<char>| labels.contains(l) ==> other_labels.contains(l),
        labels.no_duplicates(),
{
    assert forall|l: Seq<char>| labels.contains(l) implies other_labels.contains(l) by {
        let g = choose|g: int| 0 <= g < labels.len() && labels[g] == l;
        assert(opens(rows, group_of, g));
        let i = choose|i: int|
            0 <= i < rows.len() && #[trigger] group_of[i] == g && leads(rows, group_of, i);
        assert(group_of[i] == g);
        assert(rows.contains(rows[i]));
        let k = choose|k: int| 0 <= k < other_rows.len() && other_rows[k] == rows[i];
        assert(other_group_of[k] < other_labels.len());
        assert(other_labels[other_group_of[k] as int] == l);
    }
}

/// Groups of the same rows by the same labels are as many.
pub proof fn lemma_as_many_labels(
    column: KeyColumn,
    rows: Seq<usize>,
    group_of: Seq<usize>,
    labels: Seq<Seq<char>>,
    other_rows: Seq<usize>,
    other_group_of: Seq<usize>,
    other_labels: Seq<Seq<char>>,
)
    requires
        grouped_by_label(column, rows, group_of, labels),
        grouped_by_label(column, other_rows, other_group_of, other_labels),
        forall|row: usize| rows.contains(row) <==> other_rows.contains(row),
    ensures
        labels.len() == other_labels.len(),
{
    lemma_labels_are_among(
        column,
        rows,
        group_of,
        labels,
        other_rows,
        other_group_of,
        other_labels,
    );
    lemma_labels_are_among(
        column,
        other_rows,
        other_group_of,
        other_labels,
        rows,
        group_of,
        labels,
    );
    labels.unique_seq_to_set();
    other_labels.unique_seq_to_set();
    assert(labels.to_set() =~= other_labels.to_set());
}

/// A panel is read exactly when the columns are there and no complete row carries the
/// reserved label.
pub proof fn a_panel_is_read_exactly_when_it_can_be(
    data: DataView,
    numeric: Seq<Seq<char>>,
    group: Seq<char>,
    rows: Seq<usize>,
)
    requires
        each_present_row_once(data, numeric, seq![group], rows),
    ensures
        panel_of(data, numeric, Some(group), true) is Ok <==> {
            &&& forall|c: int| 0 <= c < numeric.len() ==> data.column(#[trigger] numeric[c]) is Some
            &&& data.key_column(group) is Some
            &&& forall|i: int|
                0 <= i < rows.len() ==> data.key_column(group)->0.values@[(
                #[trigger] rows[i]) as int]@ != "__global__"@
        },
        panel_of(data, numeric, Some(group), false) is Ok <==> {
            &&& forall|c: int| 0 <= c < numeric.len() ==> data.column(#[trigger] numeric[c]) is Some
            &&& data.key_column(group) is Some
        },
{
    let keys = seq![group];
    assert(keys[0] == group);
    the_rows_read_are_the_complete_ones(data, numeric, keys);
    if data.usable(numeric, keys) is Ok {
        let read = data.usable(numeric, keys)->Ok_0;
        let column = data.key_column(group)->0;
        assert(data.key_column(keys[0]) is Some);
        lemma_same_rows_read(data, numeric, keys, rows, read);
        let groups = crate::data::parted(column, read);
        let checks = Seq::new(
            groups.len(),
            |i: int| crate::types::group_key_fault(groups[i].key),
        );
        crate::data::groups_part_the_rows_by_key(column, read);
        if crate::data::group_keys_fault(groups) is None {
            crate::data::lemma_no_fault(checks);
            assert forall|i: int| 0 <= i < rows.len() implies column.values@[(
            #[trigger] rows[i]) as int]@ != "__global__"@ by {
                assert(rows.contains(rows[i]));
                let k = choose|k: int| 0 <= k < read.len() && read[k] == rows[i];
                let l = crate::data::label(column, read[k]);
                assert(crate::data::keys_of(groups).contains(l));
                let g = choose|g: int|
                    0 <= g < groups.len() && crate::data::keys_of(groups)[g] == l;
                assert(checks[g] is None);
            }
        } else if forall|i: int|
            0 <= i < rows.len() ==> column.values@[(#[trigger] rows[i]) as int]@
                != "__global__"@ {
            assert forall|g: int| 0 <= g < checks.len() implies (#[trigger] checks[g]) is None by {
                assert(groups[g].rows.len() > 0);
                let row = groups[g].rows[0];
                assert(crate::data::label(column, groups[g].rows[0]) == groups[g].key);
                assert(read.contains(row));
                assert(rows.contains(row));
                let i = choose|i: int| 0 <= i < rows.len() && rows[i] == row;
                assert(column.values@[rows[i] as int]@ != "__global__"@);
            }
            crate::data::lemma_first_fault(checks, checks.len() as int);
        }
    } else if data.key_column(group) is Some {
        assert forall|c: int| 0 <= c < keys.len() implies data.key_column(
            #[trigger] keys[c],
        ) is Some by {}
    }
}

/// Reads the usable rows of a relation and parts them into groups.
pub fn read_panel(
    data: &DataView,
    numeric: &Vec<String>,
    group: &Option<String>,
    police: bool,
) -> (r: BayesResult<Panel>)
    requires
        data.wf(),
    ensures
        crate::errors::outcome(r) == panel_of(
            *data,
            crate::text::texts(numeric@),
            crate::data::name_of(*group),
            police,
        ),
        r matches Ok(panel) ==> panel.wf(data.n_rows as int) && forall|i: int|
            0 <= i < numeric@.len() ==> data.column((#[trigger] numeric@[i])@) is Some,
{
    let mut key_columns: Vec<String> = Vec::new();
    proof {
        assert(crate::text::texts(key_columns@) =~= Seq::<Seq<char>>::empty());
    }
    match group {
        Some(name) => {
            push_text(&mut key_columns, name.as_str());
        },
        None => {},
    }
    proof {
        assert(crate::text::texts(key_columns@) =~= group_columns(crate::data::name_of(*group)));
    }
    let rows = data.usable_rows(numeric, &key_columns)?;
    let groups = data.group_rows(group, &rows)?;
    if police && group.is_some() {
        validate_group_keys(&groups)?;
    }
    let keys = group_keys(&groups);
    let (order, group_of) = flatten(&groups, data.n_rows);
    let panel = Panel { rows, groups, keys, order, group_of };
    proof {
        crate::data::usable_rows_are_no_more_than_rows(
            *data,
            crate::text::texts(numeric@),
            crate::text::texts(key_columns@),
        );
        lemma_panel_sizes(*data, crate::data::name_of(*group), rows@);
        assert(crate::text::texts(panel.keys@).len() == panel@.groups.len());
    }
    Ok(panel)
}

} // verus!
